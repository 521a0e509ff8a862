//! The parcel parser and renderers, exercised from outside.
use cadastre::owner::Owner;
use cadastre::parcel::{process_plot_line, Links, Parcel, ParseErrorKind};
use cadastre::pos::Pos;

fn links_from(pairs: &[(char, &str)]) -> Links {
    let mut links = Links::new();
    for (key, url) in pairs {
        links.insert(*key, url.to_string());
    }
    links
}

#[test]
fn parse_error_when_empty() {
    assert_eq!(Parcel::from_text("", Owner::Public).unwrap_err().kind, ParseErrorKind::EmptyFile);
}

#[test]
fn parse_error_when_position_invalid() {
    assert_eq!(Parcel::from_text(" ", Owner::Public).unwrap_err().kind, ParseErrorKind::PosLine);
    assert_eq!(Parcel::from_text("123", Owner::Public).unwrap_err().kind, ParseErrorKind::PosLine);
    assert_eq!(Parcel::from_text("a 3", Owner::Public).unwrap_err().kind, ParseErrorKind::PosLine);
    assert_eq!(Parcel::from_text("5 b", Owner::Public).unwrap_err().kind, ParseErrorKind::PosLine);
    assert_eq!(Parcel::from_text("10 11 12", Owner::Public).unwrap_err().kind, ParseErrorKind::PosLine);
}

#[test]
fn truncate_long_str() {
    assert_eq!(process_plot_line("hello_world", 8), "hello_wo".to_string());
}

#[test]
fn pad_short_str() {
    assert_eq!(process_plot_line("hi", 8), "hi      ".to_string());
}

#[test]
fn truncate_unicode() {
    assert_eq!(process_plot_line("║╒╔╕╗", 1), "║".to_string());
    assert_eq!(process_plot_line("║╒╔╕╗", 2), "║╒".to_string());
    assert_eq!(process_plot_line("║╒╔╕╗", 3), "║╒╔".to_string());
    assert_eq!(process_plot_line("║╒╔╕╗", 4), "║╒╔╕".to_string());
    assert_eq!(process_plot_line("║╒╔╕╗", 5), "║╒╔╕╗".to_string());
}

#[test]
fn replace_disallowed_characters() {
    assert_eq!(process_plot_line("|..👻.◫.|", 8), "|..?.?.|".to_string());
}

#[test]
fn parse_smaller_parcel() {
    let parceltext = r#" 0  1
1234567890
1234567890123456789012345678901234567890
31
a
z"#;
    let parcel: Parcel = Parcel::from_text(parceltext, Owner::user("troido")).unwrap();
    assert_eq!(parcel.art, vec![
        "1234567890              ",
        "123456789012345678901234",
        "31                      ",
        "a                       ",
        "z                       ",
        "                        ",
        "                        ",
        "                        ",
        "                        ",
        "                        ",
        "                        ",
        "                        "
    ]);
    assert_eq!(parcel.links, Links::new());
}

#[test]
fn parse_parcel_with_mask() {
    let parceltext = r#"0 1
+==()=================+.
| (%&8)  /\       _,__|.
|(&(%)%)/  \    . __,_|.
| (%8%)/_##_\   .     |.
|  ||/ |    |   . @   |.
|  ||  | /\ | * . @   |.
|  ||  |_||_|   .     |.
|        ..  *  .     |.
| (%) O  ........     |.
|        ..    ~troido|.
+=======#  #==========+.
........................

111()111111111111111111.
1 (%&8)  33       _,__1.
1(&(%)%)3333    . __,_1.
1 (%8%)333333   .     1.
1  ||/ 333333   . @   1.
1  ||  333333 * . @   1.
1  ||  333333   .     1.
1        ..  *  . "'` 1.
1 (%) O  ........     1.
1        ..    22222221.
11111111111111111111111.
........................
1 https://tilde.town/~troido/cadastre/
2 https://tilde.town/~troido/index.html
3 https://tilde.town/~troido/entrance.html
		"#;
    let expected = Parcel {
        owner: Owner::user("troido"),
        location: Pos::new(0, 1),
        art: [
            "+==()=================+.",
            "| (%&8)  /\\       _,__|.",
            "|(&(%)%)/  \\    . __,_|.",
            "| (%8%)/_##_\\   .     |.",
            "|  ||/ |    |   . @   |.",
            "|  ||  | /\\ | * . @   |.",
            "|  ||  |_||_|   .     |.",
            "|        ..  *  .     |.",
            "| (%) O  ........     |.",
            "|        ..    ~troido|.",
            "+=======#  #==========+.",
            "........................"
        ].map(String::from).to_vec(),
        mask: [
            "111()111111111111111111.",
            "1 (%&8)  33       _,__1.",
            "1(&(%)%)3333    . __,_1.",
            "1 (%8%)333333   .     1.",
            "1  ||/ 333333   . @   1.",
            "1  ||  333333 * . @   1.",
            "1  ||  333333   .     1.",
            "1        ..  *  . \"'` 1.",
            "1 (%) O  ........     1.",
            "1        ..    22222221.",
            "11111111111111111111111.",
            "........................"
        ].map(String::from).to_vec(),
        links: links_from(&[('1', "https://tilde.town/~troido/cadastre/"), ('2', "https://tilde.town/~troido/index.html"), ('3', "https://tilde.town/~troido/entrance.html")])
    };
    assert_eq!(Parcel::from_text(parceltext, Owner::user("troido")).unwrap(), expected);
}

#[test]
fn parse_parcel_without_mask() {
    let parceltext = r#"5 1
####################
#  ____            #
# / \__\           #
# |_|__|    ,,,,,  #
#           ,,,,,  #
#    -----  ,,,,,  #
#    -----     _   #
#    -----    (*)  #
# ~johndoe     |   #
##########(%)#######
...........|........
....................
-
# https://example.com
		"#;
    let expected = Parcel {
        owner: Owner::user("johndoe"),
        location: Pos::new(5, 1),
        art: [
            "####################    ",
            "#  ____            #    ",
            "# / \\__\\           #    ",
            "# |_|__|    ,,,,,  #    ",
            "#           ,,,,,  #    ",
            "#    -----  ,,,,,  #    ",
            "#    -----     _   #    ",
            "#    -----    (*)  #    ",
            "# ~johndoe     |   #    ",
            "##########(%)#######    ",
            "...........|........    ",
            "....................    "
        ].map(String::from).to_vec(),
        mask: [
            "####################    ",
            "#  ____            #    ",
            "# / \\__\\           #    ",
            "# |_|__|    ,,,,,  #    ",
            "#           ,,,,,  #    ",
            "#    -----  ,,,,,  #    ",
            "#    -----     _   #    ",
            "#    -----    (*)  #    ",
            "# ~johndoe     |   #    ",
            "##########(%)#######    ",
            "...........|........    ",
            "....................    "
        ].map(String::from).to_vec(),
        links: links_from(&[('#', "https://example.com")])
    };
    assert_eq!(Parcel::from_text(parceltext, Owner::user("johndoe")).unwrap(), expected);
}

#[test]
fn parse_larger_parcel() {
    let parceltext = r#" 0  1
 ___________
< Cadastre! >
 -----------
\                             .       .
 \                           / `.   .' "
  \                  .---.  <    > <    >  .---.
   \                 |    \  \ - ~ ~ - /  /    |
         _____          ..-~             ~-..-~
        |     |   \~~~\.'                    `./~~~/
       ---------   \__/                        \__/
      .'  O    \     /               /       \  "
     (_____,    `._.'               |         }  \/~~~/
      `----.          /       }     |        /    \__/
            `-.      |       /      |       /      `. ,~~|
                ~-.__|      /_ - ~ ^|      /- _      `..-'
                     |     /        |     /     ~-.     `-. _  _  _
                     |_____|        |_____|         ~ - . _ _ _ _ _>
"#;
    let parcel: Parcel = Parcel::from_text(parceltext, Owner::user("troido")).unwrap();
    assert_eq!(parcel.art, vec![
        " ___________            ",
        "< Cadastre! >           ",
        " -----------            ",
        "\\                       ",
        " \\                      ",
        "  \\                  .--",
        "   \\                 |  ",
        "         _____          ",
        "        |     |   \\~~~\\.",
        "       ---------   \\__/ ",
        "      .'  O    \\     /  ",
        "     (_____,    `._.'   "
    ]);
    assert_eq!(parcel.links, Links::new());
}

#[test]
fn parse_js_in_link() {
            let parceltext = r#"2 2
........................
........................
.........?????..........
........................
........................
........................
....!!!!!!!!............
........................
........................
........................
........................
........................
-
 ?   https://en.wikipedia.org
! javascript:(function(){ console.log("<hello> " + '"world"'); })()
"#;
    let parcel: Parcel = Parcel::from_text(parceltext, Owner::user("troido")).unwrap();
    assert_eq!(parcel.links, links_from(&[('?', "https://en.wikipedia.org"), ('!', r#"javascript:(function(){ console.log("<hello> " + '"world"'); })()"#)]));
    assert_eq!(parcel.html_line(6), r#"....<a href="javascript:(function(){ console.log(&quot;<hello> &quot; + '&quot;world&quot;'); })()">!!!!!!!!</a>............"#.to_string());
}

#[test]
fn parse_header_and_one_short_line() {
    let parcel = Parcel::from_text("0 1\nhello\n", Owner::Public).unwrap();
    assert_eq!(parcel.location, Pos::new(0, 1));
    assert_eq!(parcel.art[0], "hello                   ");
    for y in 1..12 {
    assert_eq!(parcel.art[y], "                        ");
}
    assert_eq!(parcel.mask, parcel.art);
    assert_eq!(parcel.links, Links::new());
}

#[test]
fn parse_empty_art_after_header() {
    let parcel = Parcel::from_text("4 -2\n", Owner::Public).unwrap();
    for y in 0..12 {
    assert_eq!(parcel.art[y], "                        ");
    assert_eq!(parcel.mask[y], "                        ");
}
}

#[test]
fn parse_error_on_malformed_link_line() {
    let mut text = String::from("0 0\n");
    for _ in 0..12 {
    text.push_str("........................\n");
}
    text.push_str("-\n");
    text.push_str("nourlhere\n");
    let err = Parcel::from_text(&text, Owner::Public).unwrap_err();
    assert_eq!(err.kind, ParseErrorKind::LinkLine);
    assert_eq!(err.row, 14);
    assert_eq!(err.line, "nourlhere");
    // a two-character key is refused too
    let mut text2 = String::from("0 0\n");
    for _ in 0..12 {
    text2.push_str("........................\n");
}
    text2.push_str("-\n");
    text2.push_str("ab https://example.com\n");
    let err2 = Parcel::from_text(&text2, Owner::Public).unwrap_err();
    assert_eq!(err2.kind, ParseErrorKind::LinkLine);
    assert_eq!(err2.row, 14);
}

#[test]
fn malformed_separator_disables_links_silently() {
    let mut text = String::from("0 0\n");
    for _ in 0..12 {
    text.push_str("........................\n");
}
    text.push_str("garbage separator\n");
    text.push_str("also garbage that would be a bad link line\n");
    let parcel = Parcel::from_text(&text, Owner::Public).unwrap();
    assert_eq!(parcel.links, Links::new());
    assert_eq!(parcel.mask, parcel.art);
}

#[test]
fn duplicate_link_keys_last_wins() {
    let mut text = String::from("0 0\n");
    for _ in 0..12 {
    text.push_str("aaaaaaaaaaaaaaaaaaaaaaaa\n");
}
    text.push_str("-\n");
    text.push_str("a https://example.com/first\n");
    text.push_str("a https://example.com/second\n");
    let parcel = Parcel::from_text(&text, Owner::Public).unwrap();
    assert_eq!(parcel.links, links_from(&[('a', "https://example.com/second")]));
}

#[test]
fn unlinked_mask_characters_render_plain() {
    let mut text = String::from("0 0\n");
    text.push_str("a<b>c&d\n");
    for _ in 0..11 {
    text.push_str("........................\n");
}
    text.push_str("\n");
    for _ in 0..12 {
    text.push_str("zzzzzzzzzzzzzzzzzzzzzzzz\n");
}
    let parcel = Parcel::from_text(&text, Owner::Public).unwrap();
    // no entry for 'z' in links: plain escaped text, no anchor tag
    assert_eq!(parcel.html_line(0), format!("a&lt;b&gt;c&amp;d{}", " ".repeat(17)));
    assert!(!parcel.html_line(0).contains("<a "));
}

#[test]
fn user_first_row_carries_name_span() {
    let parcel = Parcel::empty(Owner::user("alice"), Pos::new(0, 0));
    assert_eq!(
    parcel.html_line(0),
    format!("<span id=\"alice\">{}</span>", " ".repeat(24))
    );
    assert_eq!(parcel.html_line(1), " ".repeat(24));
}

#[test]
fn text_line_returns_stored_row() {
    let parcel = Parcel::from_text("2 2\nhello world\n", Owner::Public).unwrap();
    assert_eq!(parcel.text_line(0), "hello world             ");
}

#[test]
fn parse_error_message_names_the_line() {
    let err = Parcel::from_text("", Owner::Public).unwrap_err();
    assert_eq!(err.message(), "Parse error: The file is empty\n on line 1: \"\"");
    let err = Parcel::from_text("not a position", Owner::Public).unwrap_err();
    assert_eq!(
        err.message(),
        "Parse error: The first line must contain the position of the plot as 2 integers separated by a space\n on line 1: \"not a position\""
    );
}
