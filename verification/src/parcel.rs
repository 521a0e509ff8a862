//! Parcels: fixed-size art plots, their text-format parser, and their
//! text and HTML line renderers.
use vstd::prelude::*;
use crate::owner::{Owner, OwnerView};
use crate::pos::{self, Pos};
use crate::strutil;

verus! {

/// Width of a plot, in characters.
pub const PLOT_WIDTH: usize = 24;

/// Height of a plot, in lines.
pub const PLOT_HEIGHT: usize = 12;

/// The allow-list of renderable glyphs: printable ASCII plus a curated set
/// of box-drawing and decorative symbols. Anything else is replaced when a
/// plot is sanitized, so shared output cannot be corrupted by arbitrary
/// Unicode.
pub open spec fn is_allowed(c: char) -> bool {
    ||| (0x20 <= c as u32 && c as u32 <= 0x7e)
    ||| c as u32 == 0xa5
    ||| c as u32 == 0xa8
    ||| c as u32 == 0xb0
    ||| c as u32 == 0xb2
    ||| c as u32 == 0xb4
    ||| c as u32 == 0xb7
    ||| c as u32 == 0xbf
    ||| c as u32 == 0xd7
    ||| c as u32 == 0x14d
    ||| c as u32 == 0x3c0
    ||| c as u32 == 0x14da
    ||| c as u32 == 0x15e2
    ||| c as u32 == 0x160f
    ||| c as u32 == 0x2020
    ||| c as u32 == 0x2022
    ||| c as u32 == 0x2026
    ||| c as u32 == 0x203e
    ||| c as u32 == 0x221e
    ||| c as u32 == 0x2248
    ||| c as u32 == 0x2261
    ||| c as u32 == 0x229e
    ||| c as u32 == 0x2500
    ||| c as u32 == 0x2502
    ||| c as u32 == 0x250c
    ||| (0x250f <= c as u32 && c as u32 <= 0x2510)
    ||| (0x2513 <= c as u32 && c as u32 <= 0x2514)
    ||| (0x2517 <= c as u32 && c as u32 <= 0x2518)
    ||| (0x251b <= c as u32 && c as u32 <= 0x251c)
    ||| (0x2523 <= c as u32 && c as u32 <= 0x2524)
    ||| (0x252b <= c as u32 && c as u32 <= 0x252c)
    ||| (0x2533 <= c as u32 && c as u32 <= 0x2534)
    ||| (0x253b <= c as u32 && c as u32 <= 0x253c)
    ||| c as u32 == 0x2542
    ||| (0x2550 <= c as u32 && c as u32 <= 0x2552)
    ||| (0x2554 <= c as u32 && c as u32 <= 0x2555)
    ||| (0x2557 <= c as u32 && c as u32 <= 0x2558)
    ||| (0x255a <= c as u32 && c as u32 <= 0x255d)
    ||| (0x255f <= c as u32 && c as u32 <= 0x2560)
    ||| (0x2562 <= c as u32 && c as u32 <= 0x2567)
    ||| c as u32 == 0x2569
    ||| c as u32 == 0x256b
    ||| (0x256d <= c as u32 && c as u32 <= 0x256e)
    ||| (0x2570 <= c as u32 && c as u32 <= 0x2572)
    ||| (0x257f <= c as u32 && c as u32 <= 0x2584)
    ||| (0x2588 <= c as u32 && c as u32 <= 0x258a)
    ||| c as u32 == 0x258c
    ||| c as u32 == 0x258e
    ||| (0x2590 <= c as u32 && c as u32 <= 0x2594)
    ||| c as u32 == 0x2599
    ||| (0x259b <= c as u32 && c as u32 <= 0x259c)
    ||| c as u32 == 0x259f
    ||| c as u32 == 0x25aa
    ||| c as u32 == 0x25ba
    ||| c as u32 == 0x25c4
    ||| c as u32 == 0x25ca
    ||| c as u32 == 0x25d8
    ||| c as u32 == 0x25e0
    ||| c as u32 == 0x2606
    ||| c as u32 == 0x263a
    ||| c as u32 == 0x2660
    ||| c as u32 == 0x2665
    ||| (0x266a <= c as u32 && c as u32 <= 0x266b)
    ||| c as u32 == 0x266f
    ||| (0x26b5 <= c as u32 && c as u32 <= 0x26b6)
    ||| c as u32 == 0x26ed
    ||| c as u32 == 0x2725
    ||| c as u32 == 0x273d
    ||| c as u32 == 0x2740
    ||| c as u32 == 0x2785
    ||| c as u32 == 0x2790
    ||| (0x2800 <= c as u32 && c as u32 <= 0x2801)
    ||| c as u32 == 0x2803
    ||| c as u32 == 0x2808
    ||| c as u32 == 0x280b
    ||| (0x2818 <= c as u32 && c as u32 <= 0x2819)
    ||| c as u32 == 0x281b
    ||| (0x281e <= c as u32 && c as u32 <= 0x281f)
    ||| c as u32 == 0x2833
    ||| c as u32 == 0x283a
    ||| c as u32 == 0x283e
    ||| c as u32 == 0x2840
    ||| c as u32 == 0x2847
    ||| c as u32 == 0x285e
    ||| c as u32 == 0x2864
    ||| c as u32 == 0x2880
    ||| c as u32 == 0x2887
    ||| c as u32 == 0x28a0
    ||| c as u32 == 0x28a4
    ||| c as u32 == 0x28a6
    ||| c as u32 == 0x28a9
    ||| c as u32 == 0x28ab
    ||| (0x28b8 <= c as u32 && c as u32 <= 0x28b9)
    ||| c as u32 == 0x28bb
    ||| (0x28be <= c as u32 && c as u32 <= 0x28c0)
    ||| c as u32 == 0x28c4
    ||| c as u32 == 0x28c6
    ||| c as u32 == 0x28e0
    ||| c as u32 == 0x28e4
    ||| c as u32 == 0x28ec
    ||| c as u32 == 0x28ef
    ||| (0x28f3 <= c as u32 && c as u32 <= 0x28f4)
    ||| c as u32 == 0x28f7
    ||| (0x28fb <= c as u32 && c as u32 <= 0x28fd)
    ||| c as u32 == 0x28ff
}

pub fn is_allowed_char(c: char) -> (r: bool)
    ensures
        r == is_allowed(c),
{
    let u = c as u32;
    (0x20 <= u && u <= 0x7e) || u == 0xa5 || u == 0xa8
        || u == 0xb0 || u == 0xb2 || u == 0xb4
        || u == 0xb7 || u == 0xbf || u == 0xd7
        || u == 0x14d || u == 0x3c0 || u == 0x14da
        || u == 0x15e2 || u == 0x160f || u == 0x2020
        || u == 0x2022 || u == 0x2026 || u == 0x203e
        || u == 0x221e || u == 0x2248 || u == 0x2261
        || u == 0x229e || u == 0x2500 || u == 0x2502
        || u == 0x250c || (0x250f <= u && u <= 0x2510) || (0x2513 <= u && u <= 0x2514)
        || (0x2517 <= u && u <= 0x2518) || (0x251b <= u && u <= 0x251c) || (0x2523 <= u && u <= 0x2524)
        || (0x252b <= u && u <= 0x252c) || (0x2533 <= u && u <= 0x2534) || (0x253b <= u && u <= 0x253c)
        || u == 0x2542 || (0x2550 <= u && u <= 0x2552) || (0x2554 <= u && u <= 0x2555)
        || (0x2557 <= u && u <= 0x2558) || (0x255a <= u && u <= 0x255d) || (0x255f <= u && u <= 0x2560)
        || (0x2562 <= u && u <= 0x2567) || u == 0x2569 || u == 0x256b
        || (0x256d <= u && u <= 0x256e) || (0x2570 <= u && u <= 0x2572) || (0x257f <= u && u <= 0x2584)
        || (0x2588 <= u && u <= 0x258a) || u == 0x258c || u == 0x258e
        || (0x2590 <= u && u <= 0x2594) || u == 0x2599 || (0x259b <= u && u <= 0x259c)
        || u == 0x259f || u == 0x25aa || u == 0x25ba
        || u == 0x25c4 || u == 0x25ca || u == 0x25d8
        || u == 0x25e0 || u == 0x2606 || u == 0x263a
        || u == 0x2660 || u == 0x2665 || (0x266a <= u && u <= 0x266b)
        || u == 0x266f || (0x26b5 <= u && u <= 0x26b6) || u == 0x26ed
        || u == 0x2725 || u == 0x273d || u == 0x2740
        || u == 0x2785 || u == 0x2790 || (0x2800 <= u && u <= 0x2801)
        || u == 0x2803 || u == 0x2808 || u == 0x280b
        || (0x2818 <= u && u <= 0x2819) || u == 0x281b || (0x281e <= u && u <= 0x281f)
        || u == 0x2833 || u == 0x283a || u == 0x283e
        || u == 0x2840 || u == 0x2847 || u == 0x285e
        || u == 0x2864 || u == 0x2880 || u == 0x2887
        || u == 0x28a0 || u == 0x28a4 || u == 0x28a6
        || u == 0x28a9 || u == 0x28ab || (0x28b8 <= u && u <= 0x28b9)
        || u == 0x28bb || (0x28be <= u && u <= 0x28c0) || u == 0x28c4
        || u == 0x28c6 || u == 0x28e0 || u == 0x28e4
        || u == 0x28ec || u == 0x28ef || (0x28f3 <= u && u <= 0x28f4)
        || u == 0x28f7 || (0x28fb <= u && u <= 0x28fd) || u == 0x28ff
}

/// A character as it is stored: kept if allowed, replaced by a question
/// mark otherwise.
pub open spec fn sanitize(c: char) -> char {
    if is_allowed(c) {
        c
    } else {
        '?'
    }
}

/// A plot line brought to exactly `len` characters: sanitized, right-padded
/// with spaces, truncated past `len`.
pub open spec fn plot_line_spec(s: Seq<char>, len: int) -> Seq<char> {
    Seq::new(len as nat, |i: int| if i < s.len() { sanitize(s[i]) } else { ' ' })
}

/// Pads or truncates a line of text to exactly `length` characters,
/// counting Unicode characters rather than bytes, and replaces every
/// disallowed character with a question mark.
pub fn process_plot_line(txt: &str, length: usize) -> (r: String)
    ensures
        r@ == plot_line_spec(txt@, length as int),
{
    let cs = strutil::chars_of(txt);
    let mut out: Vec<char> = Vec::new();
    let mut i: usize = 0;
    while i < length
        invariant
            0 <= i <= length,
            cs@ == txt@,
            out@ =~= plot_line_spec(txt@, length as int).take(i as int),
        decreases length - i,
    {
        if i < cs.len() {
            let c = cs[i];
            if is_allowed_char(c) {
                out.push(c);
            } else {
                out.push('?');
            }
        } else {
            out.push(' ');
        }
        proof {
            assert(out@ =~= plot_line_spec(txt@, length as int).take(i + 1));
        }
        i = i + 1;
    }
    proof {
        assert(out@ =~= plot_line_spec(txt@, length as int));
    }
    strutil::string_of(&out)
}

/// The line at an index, or an empty line past the end of the input.
pub open spec fn row_source(lines: Seq<Seq<char>>, idx: int) -> Seq<char> {
    if 0 <= idx < lines.len() {
        lines[idx]
    } else {
        Seq::empty()
    }
}

/// The twelve plot rows read starting at a line index: each line padded,
/// truncated and sanitized to the fixed width, missing lines read as empty.
pub open spec fn plot_spec(lines: Seq<Seq<char>>, start: int) -> Seq<Seq<char>> {
    Seq::new(12, |j: int| plot_line_spec(row_source(lines, start + j), 24))
}

/// Exactly twelve rows of exactly twenty-four characters each.
pub open spec fn grid_wf(g: Seq<Seq<char>>) -> bool {
    g.len() == 12 && forall|i: int| 0 <= i < g.len() ==> (#[trigger] g[i]).len() == 24
}

fn read_plot(lines: &Vec<Vec<char>>, start: usize) -> (r: Vec<String>)
    requires
        start + 12 <= usize::MAX,
    ensures
        r@.map_values(|s: String| s@) == plot_spec(
            lines@.map_values(|l: Vec<char>| l@),
            start as int,
        ),
{
    let ghost sl = lines@.map_values(|l: Vec<char>| l@);
    let mut out: Vec<String> = Vec::new();
    let mut j: usize = 0;
    while j < 12
        invariant
            0 <= j <= 12,
            start + 12 <= usize::MAX,
            sl == lines@.map_values(|l: Vec<char>| l@),
            out@.map_values(|s: String| s@) =~= plot_spec(sl, start as int).take(j as int),
        decreases 12 - j,
    {
        let row: String = if start + j < lines.len() {
            let line = strutil::string_of(&lines[start + j]);
            process_plot_line(line.as_str(), PLOT_WIDTH)
        } else {
            let empty = String::new();
            process_plot_line(empty.as_str(), PLOT_WIDTH)
        };
        proof {
            assert(row@ == plot_line_spec(row_source(sl, start + j), 24));
            assert(out@.push(row).map_values(|s: String| s@) =~= out@.map_values(
                |s: String| s@,
            ).push(row@));
            assert(out@.push(row).map_values(|s: String| s@) =~= plot_spec(
                sl,
                start as int,
            ).take(j + 1));
        }
        out.push(row);
        j = j + 1;
    }
    proof {
        assert(out@.map_values(|s: String| s@) =~= plot_spec(sl, start as int));
    }
    out
}

/// The mapping an entry list denotes: later entries for a key win.
pub open spec fn links_map(s: Seq<(char, Seq<char>)>) -> Map<char, Seq<char>>
    decreases s.len(),
{
    if s.len() == 0 {
        Map::empty()
    } else {
        links_map(s.drop_last()).insert(s.last().0, s.last().1)
    }
}

/// The link table of a parcel: single-character keys mapped to URLs.
#[derive(Debug)]
pub struct Links {
    pub entries: Vec<(char, String)>,
}

impl View for Links {
    type V = Map<char, Seq<char>>;

    open spec fn view(&self) -> Map<char, Seq<char>> {
        links_map(self.entries@.map_values(|p: (char, String)| (p.0, p.1@)))
    }
}

impl Links {
    /// One entry for each key: what every constructor of this type keeps true.
    pub open spec fn wf(&self) -> bool {
        forall|i: int, j: int|
            0 <= i < j < self.entries@.len() ==> (#[trigger] self.entries@[i]).0 != (
            #[trigger] self.entries@[j]).0
    }

    pub fn new() -> (r: Links)
        ensures
            r@ == Map::<char, Seq<char>>::empty(),
            r.wf(),
            r.entries@.len() == 0,
    {
        Links { entries: Vec::new() }
    }

    /// Adds an entry; an entry already present for the key is replaced,
    /// so the last definition of a key wins.
    pub fn insert(&mut self, key: char, url: String)
        requires
            old(self).wf(),
        ensures
            final(self).wf(),
            final(self)@ == old(self)@.insert(key, url@),
    {
        let ghost pre = old(self).entries@.map_values(|p: (char, String)| (p.0, p.1@));
        let mut i: usize = 0;
        let n = self.entries.len();
        while i < n
            invariant
                0 <= i <= n == self.entries@.len(),
                old(self).wf(),
                self.entries@ == old(self).entries@,
                pre == old(self).entries@.map_values(|p: (char, String)| (p.0, p.1@)),
                forall|m: int| 0 <= m < i ==> (#[trigger] self.entries@[m]).0 != key,
            decreases n - i,
        {
            if self.entries[i].0 == key {
                proof {
                    assert forall|m: int|
                        0 <= m < pre.len() && m != i implies (#[trigger] pre[m]).0 != key by {
                        if 0 <= m < pre.len() && m != i {
                            assert(pre[m].0 == old(self).entries@[m].0);
                            if m > i {
                                assert(old(self).entries@[i as int].0 != old(
                                    self,
                                ).entries@[m].0);
                            }
                        }
                    }
                }
                self.entries.remove(i);
                self.entries.push((key, url));
                proof {
                    let post = self.entries@.map_values(|p: (char, String)| (p.0, p.1@));
                    assert(post =~= pre.remove(i as int).push((key, url@)));
                    lemma_links_map_insert_found(pre, i as int, key, url@);
                    assert forall|a: int, b: int|
                        0 <= a < b < self.entries@.len() implies (#[trigger] self.entries@[a]).0
                        != (#[trigger] self.entries@[b]).0 by {
                        let e = old(self).entries@;
                        assert(self.entries@ =~= e.remove(i as int).push((key, url)));
                        if b == self.entries@.len() - 1 {
                            let a0 = if a < i { a } else { a + 1 };
                            assert(self.entries@[a] == e[a0]);
                            assert(e[a0].0 != key);
                        } else {
                            let a0 = if a < i { a } else { a + 1 };
                            let b0 = if b < i { b } else { b + 1 };
                            assert(self.entries@[a] == e[a0]);
                            assert(self.entries@[b] == e[b0]);
                        }
                    }
                }
                return ;
            }
            i = i + 1;
        }
        self.entries.push((key, url));
        proof {
            let post = self.entries@.map_values(|p: (char, String)| (p.0, p.1@));
            assert(post =~= pre.push((key, url@)));
            lemma_links_map_push(pre, (key, url@));
            assert forall|a: int, b: int|
                0 <= a < b < self.entries@.len() implies (#[trigger] self.entries@[a]).0 != (
            #[trigger] self.entries@[b]).0 by {
                let e = old(self).entries@;
                if b < e.len() {
                    assert(self.entries@[a] == e[a]);
                    assert(self.entries@[b] == e[b]);
                } else {
                    assert(self.entries@[a] == e[a]);
                    assert(e[a].0 != key);
                }
            }
        }
    }

    /// The URL a key is mapped to, if any.
    pub fn get(&self, key: char) -> (r: Option<&String>)
        ensures
            match r {
                Some(url) => self@.contains_key(key) && self@[key] == url@,
                None => !self@.contains_key(key),
            },
    {
        let ghost s = self.entries@.map_values(|p: (char, String)| (p.0, p.1@));
        let n = self.entries.len();
        let mut i: usize = n;
        proof {
            assert(s.take(n as int) =~= s);
        }
        while i > 0
            invariant
                0 <= i <= n == self.entries@.len(),
                s == self.entries@.map_values(|p: (char, String)| (p.0, p.1@)),
                forall|m: int| i <= m < n ==> (#[trigger] s[m]).0 != key,
                links_map(s).contains_key(key) == links_map(s.take(i as int)).contains_key(key),
                links_map(s).contains_key(key) ==> links_map(s)[key] == links_map(
                    s.take(i as int),
                )[key],
            decreases i,
        {
            if self.entries[i - 1].0 == key {
                proof {
                    assert(s.take(i as int).last() == s[i - 1]);
                    assert(s.take(i as int).drop_last() =~= s.take(i - 1));
                }
                return Some(&self.entries[i - 1].1);
            }
            proof {
                assert(s.take(i as int).last() == s[i - 1]);
                assert(s.take(i as int).drop_last() =~= s.take(i - 1));
            }
            i = i - 1;
        }
        proof {
            assert(s.take(0) =~= Seq::<(char, Seq<char>)>::empty());
        }
        None
    }

    /// Whether the table holds no entry.
    pub fn is_empty(&self) -> (r: bool)
        requires
            self.wf(),
        ensures
            r == (self@ == Map::<char, Seq<char>>::empty()),
    {
        proof {
            let s = self.entries@.map_values(|p: (char, String)| (p.0, p.1@));
            if s.len() > 0 {
                assert(links_map(s).contains_key(s.last().0));
            } else {
                assert(links_map(s) =~= Map::<char, Seq<char>>::empty());
            }
        }
        self.entries.len() == 0
    }
}

/// Appending an entry inserts its key into the mapping.
pub proof fn lemma_links_map_push(s: Seq<(char, Seq<char>)>, p: (char, Seq<char>))
    ensures
        links_map(s.push(p)) == links_map(s).insert(p.0, p.1),
{
    assert(s.push(p).drop_last() =~= s);
    assert(s.push(p).last() == p);
}

/// Removing the only entry with a key and appending a new one for it
/// changes the mapping exactly as an insert does.
proof fn lemma_links_map_insert_found(s: Seq<(char, Seq<char>)>, i: int, key: char, url: Seq<char>)
    requires
        0 <= i < s.len(),
        s[i].0 == key,
        forall|m: int| 0 <= m < s.len() && m != i ==> (#[trigger] s[m]).0 != key,
    ensures
        links_map(s.remove(i).push((key, url))) == links_map(s).insert(key, url),
    decreases s.len(),
{
    lemma_links_map_push(s.remove(i), (key, url));
    if i == s.len() - 1 {
        assert(s.remove(i) =~= s.drop_last());
        assert(links_map(s) == links_map(s.drop_last()).insert(key, s[i].1));
        assert(links_map(s.drop_last()).insert(key, s[i].1).insert(key, url) =~= links_map(
            s.drop_last(),
        ).insert(key, url));
    } else {
        let ddl = s.drop_last();
        let last = s.last();
        assert(last.0 != key);
        assert(ddl[i].0 == key);
        assert forall|m: int| 0 <= m < ddl.len() && m != i implies (#[trigger] ddl[m]).0
            != key by {
            assert(ddl[m] == s[m]);
        }
        lemma_links_map_insert_found(ddl, i, key, url);
        lemma_links_map_push(ddl.remove(i), (key, url));
        lemma_links_map_push(ddl.remove(i), last);
        assert(s.remove(i) =~= ddl.remove(i).push(last));
        let m1 = links_map(ddl.remove(i));
        let m2 = links_map(ddl);
        assert(m1.insert(key, url) == m2.insert(key, url));
        assert(links_map(s) == m2.insert(last.0, last.1));
        assert(m1.insert(last.0, last.1).insert(key, url) =~= m2.insert(last.0, last.1).insert(
            key,
            url,
        )) by {
            assert forall|x: char|
                m1.insert(last.0, last.1).insert(key, url).contains_key(x) == m2.insert(
                    last.0,
                    last.1,
                ).insert(key, url).contains_key(x) by {
                if x != key && x != last.0 {
                    assert(m1.contains_key(x) == m1.insert(key, url).contains_key(x));
                    assert(m2.contains_key(x) == m2.insert(key, url).contains_key(x));
                }
            }
            assert forall|x: char|
                #![auto]
                m1.insert(last.0, last.1).insert(key, url).contains_key(x) implies m1.insert(
                    last.0,
                    last.1,
                ).insert(key, url)[x] == m2.insert(last.0, last.1).insert(key, url)[x] by {
                if x != key && x != last.0 {
                    assert(m1[x] == m1.insert(key, url)[x]);
                    assert(m2[x] == m2.insert(key, url)[x]);
                }
            }
        }
    }
}

/// A key in no entry is in no mapping.
proof fn lemma_links_map_absent_key(s: Seq<(char, Seq<char>)>, key: char)
    requires
        forall|m: int| 0 <= m < s.len() ==> (#[trigger] s[m]).0 != key,
    ensures
        !links_map(s).contains_key(key),
    decreases s.len(),
{
    if s.len() > 0 {
        assert(s.drop_last() =~= s.take(s.len() - 1));
        assert forall|m: int| 0 <= m < s.drop_last().len() implies (
        #[trigger] s.drop_last()[m]).0 != key by {
            assert(s[m].0 != key);
        }
        lemma_links_map_absent_key(s.drop_last(), key);
    }
}

/// What went wrong while parsing one parcel's text.
#[derive(Debug, Clone, Copy, PartialEq, Eq, Structural)]
pub enum ParseErrorKind {
    EmptyFile,
    PosLine,
    SeparatorLine,
    LinkLine,
}

/// A parse failure: its kind, the line it happened on, and that line's text.
#[derive(Debug)]
pub struct ParseError {
    pub kind: ParseErrorKind,
    pub row: usize,
    pub line: String,
}

/// The mathematical model of a parse failure.
pub struct ParseErrorView {
    pub kind: ParseErrorKind,
    pub row: int,
    pub line: Seq<char>,
}

impl View for ParseError {
    type V = ParseErrorView;

    open spec fn view(&self) -> ParseErrorView {
        ParseErrorView { kind: self.kind, row: self.row as int, line: self.line@ }
    }
}

/// The fixed description of each kind of parse failure.
pub open spec fn kind_text(k: ParseErrorKind) -> Seq<char> {
    match k {
        ParseErrorKind::EmptyFile => "The file is empty"@,
        ParseErrorKind::PosLine => "The first line must contain the position of the plot as 2 integers separated by a space"@,
        ParseErrorKind::SeparatorLine => "After the plot there must be a separator line that's either empty or only contains a '-' character"@,
        ParseErrorKind::LinkLine => "Each link line must start with a key (single character), followed by a space, followed by the link"@,
    }
}

/// A parse failure explained to the submitter: the kind's description, the
/// one-based line number, and the offending line's text.
pub open spec fn message_spec(e: ParseErrorView) -> Seq<char> {
    "Parse error: "@ + kind_text(e.kind) + "\n on line "@ + strutil::i64_dec_spec(
        (e.row + 1) as i64,
    ) + ": \""@ + e.line + "\""@
}

impl ParseError {
    /// The failure as readable text, naming the line it happened on.
    pub fn message(&self) -> (r: String)
        requires
            self.row + 1 <= i64::MAX,
        ensures
            r@ == message_spec(self@),
    {
        let mut out: Vec<char> = Vec::new();
        let head = strutil::chars_of("Parse error: ");
        push_all(&mut out, &head);
        let kind = match self.kind {
            ParseErrorKind::EmptyFile => strutil::chars_of("The file is empty"),
            ParseErrorKind::PosLine => strutil::chars_of(
                "The first line must contain the position of the plot as 2 integers separated by a space",
            ),
            ParseErrorKind::SeparatorLine => strutil::chars_of(
                "After the plot there must be a separator line that's either empty or only contains a '-' character",
            ),
            ParseErrorKind::LinkLine => strutil::chars_of(
                "Each link line must start with a key (single character), followed by a space, followed by the link",
            ),
        };
        push_all(&mut out, &kind);
        let at = strutil::chars_of("\n on line ");
        push_all(&mut out, &at);
        let row_text = strutil::i64_to_string((self.row as i64) + 1);
        let row_chars = strutil::chars_of(row_text.as_str());
        push_all(&mut out, &row_chars);
        let quote = strutil::chars_of(": \"");
        push_all(&mut out, &quote);
        let line_chars = strutil::chars_of(self.line.as_str());
        push_all(&mut out, &line_chars);
        let closing = strutil::chars_of("\"");
        push_all(&mut out, &closing);
        proof {
            assert(out@ =~= message_spec(self@));
        }
        strutil::string_of(&out)
    }
}

impl Clone for ParseError {
    fn clone(&self) -> (r: Self)
        ensures
            r == *self,
    {
        ParseError { kind: self.kind, row: self.row, line: self.line.clone() }
    }
}

/// One claim on the grid: a fixed-size art plot with its link mask, its
/// link table, its owner and its plot-grid location.
#[derive(Debug)]
pub struct Parcel {
    pub owner: Owner,
    pub location: Pos,
    pub art: Vec<String>,
    pub mask: Vec<String>,
    pub links: Links,
}

/// The mathematical model of a parcel.
pub struct ParcelView {
    pub owner: OwnerView,
    pub location: Pos,
    pub art: Seq<Seq<char>>,
    pub mask: Seq<Seq<char>>,
    pub links: Map<char, Seq<char>>,
}

impl View for Parcel {
    type V = ParcelView;

    open spec fn view(&self) -> ParcelView {
        ParcelView {
            owner: self.owner@,
            location: self.location,
            art: self.art@.map_values(|s: String| s@),
            mask: self.mask@.map_values(|s: String| s@),
            links: self.links@,
        }
    }
}

/// A grid of nothing but spaces, the art of a placeholder parcel.
pub open spec fn blank_grid() -> Seq<Seq<char>> {
    Seq::new(12, |i: int| Seq::new(24, |j: int| ' '))
}

/// The link-definition lines from a line index on, folded into a mapping:
/// blank lines are skipped, every other line must be a single-character key
/// and a URL, and a later definition of a key replaces an earlier one.
pub open spec fn links_section_spec(
    lines: Seq<Seq<char>>,
    j: int,
    acc: Map<char, Seq<char>>,
) -> Result<Map<char, Seq<char>>, ParseErrorView>
    decreases lines.len() - j,
{
    if j < 0 || j >= lines.len() {
        Ok(acc)
    } else {
        let t = strutil::trim_spec(lines[j]);
        if t.len() == 0 {
            links_section_spec(lines, j + 1, acc)
        } else {
            match strutil::split_first_token(t) {
                None => Err(ParseErrorView { kind: ParseErrorKind::LinkLine, row: j, line: t }),
                Some(parts) => {
                    if parts.0.len() != 1 {
                        Err(
                            ParseErrorView {
                                kind: ParseErrorKind::LinkLine,
                                row: j,
                                line: t,
                            },
                        )
                    } else {
                        links_section_spec(lines, j + 1, acc.insert(parts.0[0], parts.1))
                    }
                },
            }
        }
    }
}

/// What parsing a plot description yields, line by line: the location line,
/// twelve art lines, an optional separator introducing twelve mask lines or
/// reusing the art, and link definitions. A non-blank, non-dash separator
/// deliberately ends parsing without an error, discarding the rest.
pub open spec fn from_text_spec(text: Seq<char>, owner: OwnerView) -> Result<
    ParcelView,
    ParseErrorView,
> {
    let lines = strutil::lines_spec(text);
    if lines.len() == 0 {
        Err(ParseErrorView { kind: ParseErrorKind::EmptyFile, row: 0, line: Seq::empty() })
    } else {
        match pos::pos_from_text_spec(lines[0]) {
            None => Err(
                ParseErrorView { kind: ParseErrorKind::PosLine, row: 0, line: lines[0] },
            ),
            Some(location) => {
                let art = plot_spec(lines, 1);
                if lines.len() <= 13 {
                    Ok(
                        ParcelView {
                            owner,
                            location,
                            art,
                            mask: art,
                            links: Map::empty(),
                        },
                    )
                } else {
                    let sep = strutil::trim_spec(lines[13]);
                    if sep == seq!['-'] {
                        match links_section_spec(lines, 14, Map::empty()) {
                            Ok(links) => Ok(
                                ParcelView { owner, location, art, mask: art, links },
                            ),
                            Err(e) => Err(e),
                        }
                    } else if sep.len() == 0 {
                        let mask = plot_spec(lines, 14);
                        match links_section_spec(lines, 26, Map::empty()) {
                            Ok(links) => Ok(ParcelView { owner, location, art, mask, links }),
                            Err(e) => Err(e),
                        }
                    } else {
                        Ok(
                            ParcelView {
                                owner,
                                location,
                                art,
                                mask: art,
                                links: Map::empty(),
                            },
                        )
                    }
                }
            },
        }
    }
}

/// A copy of a grid's rows whose contents are the same rows.
pub fn clone_grid(v: &Vec<String>) -> (r: Vec<String>)
    ensures
        r@.map_values(|s: String| s@) == v@.map_values(|s: String| s@),
{
    let r = v.clone();
    proof {
        assert forall|i: int| 0 <= i < v@.len() implies r@[i] == v@[i] by {
            assert(cloned(v@[i], r@[i]));
        }
        assert(r@.map_values(|s: String| s@) =~= v@.map_values(|s: String| s@));
    }
    r
}

fn parse_links(lines: &Vec<Vec<char>>, start: usize) -> (r: Result<Links, ParseError>)
    ensures
        match r {
            Ok(l) => links_section_spec(
                lines@.map_values(|l2: Vec<char>| l2@),
                start as int,
                Map::empty(),
            ) == Ok::<Map<char, Seq<char>>, ParseErrorView>(l@) && l.wf(),
            Err(e) => links_section_spec(
                lines@.map_values(|l2: Vec<char>| l2@),
                start as int,
                Map::empty(),
            ) == Err::<Map<char, Seq<char>>, ParseErrorView>(e@),
        },
{
    let ghost sl = lines@.map_values(|l2: Vec<char>| l2@);
    let mut links = Links::new();
    let mut idx: usize = start;
    let n = lines.len();
    while idx < n
        invariant
            start <= idx,
            n == lines@.len(),
            sl == lines@.map_values(|l2: Vec<char>| l2@),
            links.wf(),
            links_section_spec(sl, start as int, Map::empty()) == links_section_spec(
                sl,
                idx as int,
                links@,
            ),
        decreases n - idx,
    {
        let t = strutil::trim_vec(&lines[idx]);
        proof {
            assert(sl[idx as int] == lines@[idx as int]@);
        }
        if t.len() == 0 {
            idx = idx + 1;
            continue ;
        }
        let (key_part, url_part) = match strutil::split_first_token_chars(&t) {
            None => {
                return Err(
                    ParseError {
                        kind: ParseErrorKind::LinkLine,
                        row: idx,
                        line: strutil::string_of(&t),
                    },
                );
            },
            Some(parts) => parts,
        };
        if key_part.len() != 1 {
            return Err(
                ParseError {
                    kind: ParseErrorKind::LinkLine,
                    row: idx,
                    line: strutil::string_of(&t),
                },
            );
        }
        let key = key_part[0];
        let url = strutil::string_of(&url_part);
        links.insert(key, url);
        idx = idx + 1;
    }
    Ok(links)
}

impl Parcel {
    /// Twelve rows of twenty-four characters in both grids, and a
    /// well-formed link table.
    pub open spec fn wf(&self) -> bool {
        grid_wf(self@.art) && grid_wf(self@.mask) && self.links.wf()
    }

    /// A blank placeholder parcel: all spaces, no links.
    pub fn empty(owner: Owner, location: Pos) -> (p: Parcel)
        ensures
            p@.owner == owner@,
            p@.location == location,
            p@.art == blank_grid(),
            p@.mask == blank_grid(),
            p@.links == Map::<char, Seq<char>>::empty(),
            p.wf(),
    {
        let blank_line = String::new();
        let row = process_plot_line(blank_line.as_str(), PLOT_WIDTH);
        let mut art: Vec<String> = Vec::new();
        let mut i: usize = 0;
        while i < 12
            invariant
                0 <= i <= 12,
                row@ == Seq::new(24, |j: int| ' '),
                art@.len() == i,
                forall|k: int| 0 <= k < i ==> (#[trigger] art@[k])@ == Seq::new(24, |j: int| ' '),
            decreases 12 - i,
        {
            art.push(row.clone());
            i = i + 1;
        }
        proof {
            assert(plot_line_spec(Seq::empty(), 24) =~= Seq::new(24, |j: int| ' '));
        }
        let mask = clone_grid(&art);
        let p = Parcel { owner, location, art, mask, links: Links::new() };
        proof {
            assert(p@.art =~= blank_grid());
            assert(p@.mask =~= blank_grid());
        }
        p
    }

    /// Parses a plot description: a location line, twelve art lines, an
    /// optional mask section, and link definitions, as the text format
    /// defines them.
    pub fn from_text(text: &str, owner: Owner) -> (r: Result<Parcel, ParseError>)
        ensures
            match r {
                Ok(p) => from_text_spec(text@, owner@) == Ok::<ParcelView, ParseErrorView>(p@)
                    && p.wf(),
                Err(e) => from_text_spec(text@, owner@) == Err::<ParcelView, ParseErrorView>(e@),
            },
    {
        let cs = strutil::chars_of(text);
        let lines = strutil::split_lines(&cs);
        let ghost sl = lines@.map_values(|l2: Vec<char>| l2@);
        if lines.len() == 0 {
            return Err(ParseError { kind: ParseErrorKind::EmptyFile, row: 0, line: String::new() });
        }
        proof {
            assert(sl[0] == lines@[0]@);
        }
        let location = match pos::Pos::from_chars(&lines[0]) {
            Some(p) => p,
            None => {
                return Err(
                    ParseError {
                        kind: ParseErrorKind::PosLine,
                        row: 0,
                        line: strutil::string_of(&lines[0]),
                    },
                );
            },
        };
        let art = read_plot(&lines, 1);
        if lines.len() <= 13 {
            let mask = clone_grid(&art);
            return Ok(Parcel { owner, location, art, mask, links: Links::new() });
        }
        proof {
            assert(sl[13] == lines@[13]@);
        }
        let sep = strutil::trim_vec(&lines[13]);
        if sep.len() == 1 && sep[0] == '-' {
            proof {
                assert(sep@ =~= seq!['-']);
            }
            let links = match parse_links(&lines, 14) {
                Ok(l) => l,
                Err(e) => {
                    return Err(e);
                },
            };
            let mask = clone_grid(&art);
            Ok(Parcel { owner, location, art, mask, links })
        } else if sep.len() == 0 {
            let mask = read_plot(&lines, 14);
            let links = match parse_links(&lines, 26) {
                Ok(l) => l,
                Err(e) => {
                    return Err(e);
                },
            };
            Ok(Parcel { owner, location, art, mask, links })
        } else {
            proof {
                assert(sep@ != seq!['-']) by {
                    if sep@ == seq!['-'] {
                        assert(sep@.len() == 1);
                    }
                }
            }
            let mask = clone_grid(&art);
            Ok(Parcel { owner, location, art, mask, links: Links::new() })
        }
    }

    /// The art row at a line index, exactly as stored.
    pub fn text_line(&self, y: usize) -> (r: &str)
        requires
            y < self.art@.len(),
        ensures
            r@ == self@.art[y as int],
    {
        proof {
            assert(self@.art[y as int] == self.art@[y as int]@);
        }
        self.art[y].as_str()
    }
}

/// Any parcel the parser yields has exactly twelve rows of exactly
/// twenty-four characters in both its art and its mask.
pub proof fn lemma_parsed_parcel_dimensions(text: Seq<char>, owner: OwnerView)
    ensures
        from_text_spec(text, owner) matches Ok(p) ==> grid_wf(p.art) && grid_wf(p.mask),
{
}

/// A visible character as HTML shows it: the three markup characters
/// escaped, everything else as itself.
pub open spec fn escape_char(c: char) -> Seq<char> {
    if c == '<' {
        seq!['&', 'l', 't', ';']
    } else if c == '>' {
        seq!['&', 'g', 't', ';']
    } else if c == '&' {
        seq!['&', 'a', 'm', 'p', ';']
    } else {
        seq![c]
    }
}

/// A URL as it stands inside a double-quoted attribute: every double
/// quote escaped.
pub open spec fn escape_quotes(s: Seq<char>) -> Seq<char>
    decreases s.len(),
{
    if s.len() == 0 {
        Seq::empty()
    } else {
        escape_quotes(s.drop_last()) + (if s.last() == '"' {
            seq!['&', 'q', 'u', 'o', 't', ';']
        } else {
            seq![s.last()]
        })
    }
}

/// The anchor tag that opens a link region.
pub open spec fn open_tag(url: Seq<char>) -> Seq<char> {
    seq!['<', 'a', ' ', 'h', 'r', 'e', 'f', '=', '"'] + escape_quotes(url) + seq!['"', '>']
}

/// The tag that closes a link region.
pub open spec fn close_tag() -> Seq<char> {
    seq!['<', '/', 'a', '>']
}

/// The span that anchors a user's plot under the user's name.
pub open spec fn span_open(name: Seq<char>) -> Seq<char> {
    seq!['<', 's', 'p', 'a', 'n', ' ', 'i', 'd', '=', '"'] + name + seq!['"', '>']
}

pub open spec fn span_close() -> Seq<char> {
    seq!['<', '/', 's', 'p', 'a', 'n', '>']
}

/// One row of HTML from a column on, given which link key is open: when
/// the mask key changes, any open tag is closed; when the key maps to a
/// link and none is open, one is opened; the visible character is escaped
/// either way; at the row's end any open tag is closed, so no tag crosses
/// a row boundary.
pub open spec fn html_row_from(
    art: Seq<char>,
    mask: Seq<char>,
    links: Map<char, Seq<char>>,
    i: int,
    open: Option<char>,
) -> Seq<char>
    decreases art.len() - i,
{
    if i < 0 || i >= art.len() {
        if open is Some {
            close_tag()
        } else {
            Seq::empty()
        }
    } else {
        let mch = if i < mask.len() {
            mask[i]
        } else {
            ' '
        };
        let closing = open is Some && open->0 != mch;
        let after_close: Option<char> = if closing {
            None
        } else {
            open
        };
        let opening = after_close is None && links.contains_key(mch);
        let newst: Option<char> = if opening {
            Some(mch)
        } else {
            after_close
        };
        (if closing {
            close_tag()
        } else {
            Seq::empty()
        }) + (if opening {
            open_tag(links[mch])
        } else {
            Seq::empty()
        }) + escape_char(art[i]) + html_row_from(art, mask, links, i + 1, newst)
    }
}

/// A parcel's art row as one line of HTML: the link regions of the mask
/// row, the escaped visible characters, and, on a named user's first row,
/// the anchor span carrying the user's name.
pub open spec fn html_line_spec(p: ParcelView, y: int) -> Seq<char> {
    let core = html_row_from(p.art[y], p.mask[y], p.links, 0, None);
    match p.owner {
        OwnerView::User(name) => if y == 0 {
            span_open(name) + core + span_close()
        } else {
            core
        },
        _ => core,
    }
}

pub fn push_all(out: &mut Vec<char>, add: &Vec<char>)
    ensures
        final(out)@ == old(out)@ + add@,
{
    let mut i: usize = 0;
    while i < add.len()
        invariant
            0 <= i <= add@.len(),
            out@ =~= old(out)@ + add@.take(i as int),
        decreases add@.len() - i,
    {
        out.push(add[i]);
        i = i + 1;
    }
    proof {
        assert(out@ =~= old(out)@ + add@);
    }
}

fn close_tag_vec() -> (r: Vec<char>)
    ensures
        r@ == close_tag(),
{
    let mut v: Vec<char> = Vec::new();
    v.push('<');
    v.push('/');
    v.push('a');
    v.push('>');
    proof {
        assert(v@ =~= close_tag());
    }
    v
}

fn escape_quotes_vec(s: &str) -> (r: Vec<char>)
    ensures
        r@ == escape_quotes(s@),
{
    let cs = strutil::chars_of(s);
    let mut out: Vec<char> = Vec::new();
    let mut i: usize = 0;
    while i < cs.len()
        invariant
            0 <= i <= cs@.len(),
            cs@ == s@,
            out@ == escape_quotes(s@.take(i as int)),
        decreases cs@.len() - i,
    {
        proof {
            assert(s@.take(i + 1).drop_last() =~= s@.take(i as int));
            assert(s@.take(i + 1).last() == s@[i as int]);
        }
        if cs[i] == '"' {
            out.push('&');
            out.push('q');
            out.push('u');
            out.push('o');
            out.push('t');
            out.push(';');
            proof {
                assert(out@ =~= escape_quotes(s@.take(i as int)) + seq![
                    '&',
                    'q',
                    'u',
                    'o',
                    't',
                    ';',
                ]);
            }
        } else {
            out.push(cs[i]);
            proof {
                assert(out@ =~= escape_quotes(s@.take(i as int)) + seq![s@[i as int]]);
            }
        }
        i = i + 1;
    }
    proof {
        assert(s@.take(cs@.len() as int) =~= s@);
    }
    out
}

fn open_tag_vec(url: &String) -> (r: Vec<char>)
    ensures
        r@ == open_tag(url@),
{
    let mut v: Vec<char> = Vec::new();
    v.push('<');
    v.push('a');
    v.push(' ');
    v.push('h');
    v.push('r');
    v.push('e');
    v.push('f');
    v.push('=');
    v.push('"');
    proof {
        assert(v@ =~= seq!['<', 'a', ' ', 'h', 'r', 'e', 'f', '=', '"']);
    }
    let esc = escape_quotes_vec(url.as_str());
    push_all(&mut v, &esc);
    v.push('"');
    v.push('>');
    proof {
        assert(v@ =~= open_tag(url@));
    }
    v
}

impl Parcel {
    /// One art row rendered as HTML, with link regions from the mask and
    /// the owner's anchor span on a named user's first row. Every tag
    /// opened on the row is closed on it.
    #[verifier::rlimit(100)]
    pub fn html_line(&self, y: usize) -> (r: String)
        requires
            self.wf(),
            y < 12,
        ensures
            r@ == html_line_spec(self@, y as int),
    {
        let ghost artv = self@.art[y as int];
        let ghost maskv = self@.mask[y as int];
        let mut out: Vec<char> = Vec::new();
        let mut opened = false;
        if y == 0 {
            if let Owner::User(name) = &self.owner {
                opened = true;
                out.push('<');
                out.push('s');
                out.push('p');
                out.push('a');
                out.push('n');
                out.push(' ');
                out.push('i');
                out.push('d');
                out.push('=');
                out.push('"');
                let name_chars = strutil::chars_of(name.as_str());
                push_all(&mut out, &name_chars);
                out.push('"');
                out.push('>');
                proof {
                    assert(out@ =~= span_open(name@));
                }
            }
        }
        let ghost pre = out@;
        let art_row = strutil::chars_of(self.art[y].as_str());
        let mask_row = strutil::chars_of(self.mask[y].as_str());
        proof {
            assert(art_row@ == artv);
            assert(mask_row@ == maskv);
            assert(artv.len() == 24 && maskv.len() == 24);
        }
        let mut active: Option<char> = None;
        let mut i: usize = 0;
        while i < 24
            invariant
                0 <= i <= 24,
                art_row@ == artv,
                mask_row@ == maskv,
                artv.len() == 24 && maskv.len() == 24,
                self.wf(),
                out@ + html_row_from(artv, maskv, self@.links, i as int, active) == pre
                    + html_row_from(artv, maskv, self@.links, 0, None),
            decreases 24 - i,
        {
            let ghost st0 = active;
            let ghost out0 = out@;
            let mch = mask_row[i];
            match active {
                Some(k) if k != mch => {
                    let ct = close_tag_vec();
                    push_all(&mut out, &ct);
                    active = None;
                },
                _ => {},
            }
            let ghost out1 = out@;
            let link = self.links.get(mch);
            match (active, link) {
                (None, Some(url)) => {
                    let tag = open_tag_vec(url);
                    push_all(&mut out, &tag);
                    active = Some(mch);
                },
                _ => {},
            }
            let ghost out2 = out@;
            let c = art_row[i];
            if c == '<' {
                out.push('&');
                out.push('l');
                out.push('t');
                out.push(';');
            } else if c == '>' {
                out.push('&');
                out.push('g');
                out.push('t');
                out.push(';');
            } else if c == '&' {
                out.push('&');
                out.push('a');
                out.push('m');
                out.push('p');
                out.push(';');
            } else {
                out.push(c);
            }
            proof {
                let links = self@.links;
                let closing = st0 is Some && st0->0 != maskv[i as int];
                let after_close: Option<char> = if closing {
                    None
                } else {
                    st0
                };
                let is_opening = after_close is None && links.contains_key(maskv[i as int]);
                assert(out1 =~= out0 + (if closing {
                    close_tag()
                } else {
                    Seq::empty()
                }));
                assert(out2 =~= out1 + (if is_opening {
                    open_tag(links[maskv[i as int]])
                } else {
                    Seq::empty()
                }));
                assert(out@ =~= out2 + escape_char(artv[i as int]));
                assert(html_row_from(artv, maskv, links, i as int, st0) == (if closing {
                    close_tag()
                } else {
                    Seq::empty()
                }) + (if is_opening {
                    open_tag(links[maskv[i as int]])
                } else {
                    Seq::empty()
                }) + escape_char(artv[i as int]) + html_row_from(
                    artv,
                    maskv,
                    links,
                    i + 1,
                    active,
                ));
                assert(out@ + html_row_from(artv, maskv, links, i + 1, active) =~= out0
                    + html_row_from(artv, maskv, links, i as int, st0));
            }
            i = i + 1;
        }
        match active {
            Some(_) => {
                let ct = close_tag_vec();
                push_all(&mut out, &ct);
            },
            None => {},
        }
        proof {
            assert(out@ =~= pre + html_row_from(artv, maskv, self@.links, 0, None));
        }
        if opened {
            out.push('<');
            out.push('/');
            out.push('s');
            out.push('p');
            out.push('a');
            out.push('n');
            out.push('>');
            proof {
                assert(out@ =~= pre + html_row_from(artv, maskv, self@.links, 0, None)
                    + span_close());
            }
        }
        strutil::string_of(&out)
    }
}

/// A mapping contains a key exactly when some entry carries it.
proof fn lemma_links_map_contains(s: Seq<(char, Seq<char>)>, k: char)
    ensures
        links_map(s).contains_key(k) == exists|i: int| 0 <= i < s.len() && (#[trigger] s[i]).0 == k,
    decreases s.len(),
{
    if s.len() > 0 {
        lemma_links_map_contains(s.drop_last(), k);
        if k == s.last().0 {
            assert(s[s.len() - 1].0 == k);
        } else {
            if exists|i: int| 0 <= i < s.drop_last().len() && (#[trigger] s.drop_last()[i]).0
                == k {
                let i = choose|i: int|
                    0 <= i < s.drop_last().len() && (#[trigger] s.drop_last()[i]).0 == k;
                assert(s[i].0 == k);
            }
            if exists|i: int| 0 <= i < s.len() && (#[trigger] s[i]).0 == k {
                let i = choose|i: int| 0 <= i < s.len() && (#[trigger] s[i]).0 == k;
                assert(s.drop_last()[i].0 == k);
            }
        }
    }
}

impl PartialEq for Links {
    fn eq(&self, other: &Links) -> (r: bool) {
        proof {
            lemma_links_map_contains(
                self.entries@.map_values(|p: (char, String)| (p.0, p.1@)),
                ' ',
            );
        }
        let n = self.entries.len();
        let mut i: usize = 0;
        while i < n
            invariant
                0 <= i <= n == self.entries@.len(),
                forall|m: int|
                    0 <= m < i ==> {
                        let k = (#[trigger] self.entries@[m]).0;
                        other@.contains_key(k) && self@.contains_key(k) && other@[k] == self@[k]
                    },
            decreases n - i,
        {
            let k = self.entries[i].0;
            proof {
                let s = self.entries@.map_values(|p: (char, String)| (p.0, p.1@));
                lemma_links_map_contains(s, k);
                assert(s[i as int].0 == k);
            }
            let mine = self.get(k);
            let theirs = other.get(k);
            match (mine, theirs) {
                (Some(a), Some(b)) => {
                    if !(*a == *b) {
                        return false;
                    }
                },
                _ => {
                    return false;
                },
            }
            i = i + 1;
        }
        let m = other.entries.len();
        let mut j: usize = 0;
        while j < m
            invariant
                0 <= j <= m == other.entries@.len(),
                forall|l: int|
                    0 <= l < j ==> self@.contains_key((#[trigger] other.entries@[l]).0),
            decreases m - j,
        {
            let k = other.entries[j].0;
            proof {
                let s = other.entries@.map_values(|p: (char, String)| (p.0, p.1@));
                lemma_links_map_contains(s, k);
                assert(s[j as int].0 == k);
            }
            match self.get(k) {
                Some(_) => {},
                None => {
                    proof {
                        let s = other.entries@.map_values(|p: (char, String)| (p.0, p.1@));
                        lemma_links_map_contains(s, k);
                    }
                    return false;
                },
            }
            j = j + 1;
        }
        proof {
            let sm = self.entries@.map_values(|p: (char, String)| (p.0, p.1@));
            let om = other.entries@.map_values(|p: (char, String)| (p.0, p.1@));
            assert(self@ =~= other@) by {
                assert forall|x: char| self@.contains_key(x) == other@.contains_key(x) by {
                    lemma_links_map_contains(sm, x);
                    lemma_links_map_contains(om, x);
                    if self@.contains_key(x) {
                        let i0 = choose|i0: int| 0 <= i0 < sm.len() && (#[trigger] sm[i0]).0 == x;
                        assert(self.entries@[i0].0 == x);
                    }
                    if other@.contains_key(x) {
                        let j0 = choose|j0: int| 0 <= j0 < om.len() && (#[trigger] om[j0]).0 == x;
                        assert(other.entries@[j0].0 == x);
                        assert(self@.contains_key(x));
                        lemma_links_map_contains(sm, x);
                    }
                }
                assert forall|x: char| self@.contains_key(x) implies self@[x] == other@[x] by {
                    lemma_links_map_contains(sm, x);
                    let i0 = choose|i0: int| 0 <= i0 < sm.len() && (#[trigger] sm[i0]).0 == x;
                    assert(self.entries@[i0].0 == x);
                }
            }
        }
        true
    }
}

impl Eq for Links {

}

impl vstd::std_specs::cmp::PartialEqSpecImpl for Links {
    open spec fn obeys_eq_spec() -> bool {
        true
    }

    open spec fn eq_spec(&self, other: &Links) -> bool {
        self@ == other@
    }
}

/// Whether two grids hold the same rows of the same characters.
fn grids_equal(a: &Vec<String>, b: &Vec<String>) -> (r: bool)
    ensures
        r == (a@.map_values(|s: String| s@) == b@.map_values(|s: String| s@)),
{
    let ghost av = a@.map_values(|s: String| s@);
    let ghost bv = b@.map_values(|s: String| s@);
    if a.len() != b.len() {
        proof {
            assert(av.len() != bv.len());
        }
        return false;
    }
    let n = a.len();
    let mut i: usize = 0;
    while i < n
        invariant
            0 <= i <= n == a@.len() == b@.len(),
            av == a@.map_values(|s: String| s@),
            bv == b@.map_values(|s: String| s@),
            forall|m: int| 0 <= m < i ==> av[m] == bv[m],
        decreases n - i,
    {
        if !a[i].eq(&b[i]) {
            proof {
                assert(av[i as int] == a@[i as int]@);
                assert(bv[i as int] == b@[i as int]@);
            }
            return false;
        }
        proof {
            assert(av[i as int] == a@[i as int]@);
            assert(bv[i as int] == b@[i as int]@);
        }
        i = i + 1;
    }
    proof {
        assert(av =~= bv);
    }
    true
}

impl PartialEq for Parcel {
    fn eq(&self, other: &Parcel) -> (r: bool) {
        let owners = self.owner == other.owner;
        let locations = self.location == other.location;
        let arts = grids_equal(&self.art, &other.art);
        let masks = grids_equal(&self.mask, &other.mask);
        let links = self.links == other.links;
        owners && locations && arts && masks && links
    }
}

impl Eq for Parcel {

}

impl vstd::std_specs::cmp::PartialEqSpecImpl for Parcel {
    open spec fn obeys_eq_spec() -> bool {
        true
    }

    open spec fn eq_spec(&self, other: &Parcel) -> bool {
        self@ == other@
    }
}

/// The visible characters of a row from a column on, each escaped, with
/// no markup around them.
pub open spec fn escape_row_from(art: Seq<char>, i: int) -> Seq<char>
    decreases art.len() - i,
{
    if i < 0 || i >= art.len() {
        Seq::empty()
    } else {
        escape_char(art[i]) + escape_row_from(art, i + 1)
    }
}

proof fn lemma_unlinked_row_renders_plain(
    art: Seq<char>,
    mask: Seq<char>,
    links: Map<char, Seq<char>>,
    i: int,
)
    requires
        forall|j: int| 0 <= j < mask.len() ==> !links.contains_key(#[trigger] mask[j]),
        art.len() == mask.len(),
    ensures
        html_row_from(art, mask, links, i, None) == escape_row_from(art, i),
    decreases art.len() - i,
{
    if 0 <= i < art.len() {
        lemma_unlinked_row_renders_plain(art, mask, links, i + 1);
    }
}

/// A row whose mask characters have no entry in the link table renders as
/// plain escaped text with no anchor tag: only the owner's span, on a
/// named user's first row, surrounds it.
pub proof fn lemma_mask_without_links_is_plain(p: ParcelView, y: int)
    requires
        grid_wf(p.art),
        grid_wf(p.mask),
        0 <= y < 12,
        forall|j: int| 0 <= j < 24 ==> !p.links.contains_key(#[trigger] p.mask[y][j]),
    ensures
        html_line_spec(p, y) == match p.owner {
            OwnerView::User(name) => if y == 0 {
                span_open(name) + escape_row_from(p.art[y], 0) + span_close()
            } else {
                escape_row_from(p.art[y], 0)
            },
            _ => escape_row_from(p.art[y], 0),
        },
{
    lemma_unlinked_row_renders_plain(p.art[y], p.mask[y], p.links, 0);
}

} // verus!
