//! The snapshot: merging, rendering and the stored form, exercised from
//! outside.
use cadastre::background::Background;
use cadastre::cadastre::{Cadastre, ParcelRecord, PosKey, TownRecord};
use cadastre::owner::Owner;
use cadastre::parcel::{Links, Parcel};
use cadastre::pos::Pos;

fn links_from(pairs: &[(char, &str)]) -> Links {
    let mut links = Links::new();
    for (key, url) in pairs {
        links.insert(*key, url.to_string());
    }
    links
}

#[test]
fn serialize_poskey_to_and_from_string() {
    assert_eq!(PosKey::new(5, -3).to_text(), "5,-3");
    assert_eq!(PosKey::parse("-412,800").unwrap(), PosKey::new(-412, 800));
}

fn some_cadastre() -> Cadastre {
    Cadastre::build(&Cadastre::empty(), vec![
        Parcel::empty(Owner::user("troido"), Pos::new(2, 3)),
        Parcel::empty(Owner::user("odiort"), Pos::new(3, 2)),
        Parcel::empty(Owner::Public, Pos::new(3, 3)),
        Parcel::empty(Owner::Admin, Pos::new(2, 2)),
    ])
}

#[test]
fn can_reclaim_unclaimed_plots() {
    let cadastre = Cadastre::build(&some_cadastre(), vec![
        Parcel::empty(Owner::user("troido"), Pos::new(3, 2)),
        Parcel::empty(Owner::user("odiort"), Pos::new(2, 3)),
        Parcel::empty(Owner::Public, Pos::new(2, 2)),
    ]);
    assert_eq!(cadastre.owner_of(Pos::new(3, 2)), Some(Owner::user("troido")));
    assert_eq!(cadastre.owner_of(Pos::new(2, 3)), Some(Owner::user("odiort")));
    assert_eq!(cadastre.owner_of(Pos::new(2, 2)), Some(Owner::Public));
}

#[test]
fn tenancy_decides_between_users() {
    let cadastre = Cadastre::build(&some_cadastre(), vec![
        Parcel::empty(Owner::user("john"), Pos::new(2, 3)),
        Parcel::empty(Owner::user("jack"), Pos::new(3, 2)),
        Parcel::empty(Owner::user("troido"), Pos::new(2, 3)),
        Parcel::empty(Owner::user("odiort"), Pos::new(3, 2)),
        Parcel::empty(Owner::user("joe"), Pos::new(2, 3)),
        Parcel::empty(Owner::user("josh"), Pos::new(3, 2)),
    ]);
    assert_eq!(cadastre.owner_of(Pos::new(2, 3)), Some(Owner::user("troido")));
    assert_eq!(cadastre.owner_of(Pos::new(3, 2)), Some(Owner::user("odiort")));
}


#[test]
fn priority_overrides_all() {
    let cadastre = Cadastre::build(&some_cadastre(), vec![
        Parcel::empty(Owner::user("troido"), Pos::new(2, 3)),
        Parcel::empty(Owner::Public, Pos::new(3, 3)),
        Parcel::empty(Owner::user("odiort"), Pos::new(3, 3)),
        Parcel::empty(Owner::Admin, Pos::new(2, 3)),
        Parcel::empty(Owner::user("troido"), Pos::new(2, 3)),
        Parcel::empty(Owner::Public, Pos::new(3, 3)),
    ]);
    assert_eq!(cadastre.owner_of(Pos::new(2, 3)), Some(Owner::Admin));
    assert_eq!(cadastre.owner_of(Pos::new(3, 3)), Some(Owner::user("odiort")));
}

#[test]
fn render_text() {
    let cadastre = little_town();
    let text = cadastre.render_text(2, 2);
    let expected = r#"+------.................                       .
|      |               .                       .
 . |      |           . __                     .
..|          |         . ~\________            .
|              |       ._   ~  ~   \_ {%%}     .
|                 |   .  \_______~<><{%%%%}    .
|     feels         |.           \   ~{%%}     .
|       must          |           \><>!||      .
|         flow         |          |~  !||      .
|         _            |           \  ~ `\     .
|      ---  -_         |            \__   \    .
+------ .......--------π               \~  |   .
+==()=================+.╔══════════════════════╗
| (%&8)  /\       _,__|.║ Tilde.town Cadastre  ║
|(&(%)%)/  \    . __,_|.║                      ║
| (%8%)/_##_\   .     |.║ Any tilde.town user  ║
|  ||/ |    |   . @   |.║ can claim a parcel   ║
|  ||  | /\ | * . @   |.║ of land to show some ║
|  ||  |_||_|   .     |.║ awesome ascii art    ║
|        ..  *  . "'` |.║                      ║
| (%) O  ........     |.║ * Instructions       ║
|        ..    ~troido|.║ * source (github)    ║
+=======#  #==========+.║      Made by ~troido ║
........................╚══════════════════════╝
"#;
    compare_text(&text, expected);
}

#[test]
fn render_html() {
    let cadastre = little_town();
    let text = cadastre.render_html(2, 2);
    let expected = r#"<!DOCTYPE html>
<html>
<!-- See tilde.town/~troido/cadastre for instructions -->
<head>
<meta charset='utf-8'>
<style>
a {text-decoration: none}
</style>
</head>
<body><pre>
<span id="0,0"></span><span id="vilmibm">+------.................</span><span id="1,0"></span>                       .
|      |               .                       .
 . |      |           . __                     .
..|          |         . ~\________            .
|              |       ._   ~  ~   \_ {%%}     .
|                 |   .  \_______~&lt;&gt;&lt;{%%%%}    .
|     <a href="https://tilde.town/~vilmibm">feels</a>         |.           \   ~{%%}     .
|       <a href="https://tilde.town/~vilmibm">must</a>          |           \&gt;&lt;&gt;!||      .
|         <a href="https://tilde.town/~vilmibm">flow</a>         |          |~  !||      .
|         _            |           \  ~ `\     .
|      ---  -_         |            \__   \    .
+------ .......--------<a href="https://libraryofbabel.info/random.cgi">π</a>               \~  |   .
<span id="0,1"></span><span id="troido"><a href="https://tilde.town/~troido/cadastre/">+==</a>()<a href="https://tilde.town/~troido/cadastre/">=================+</a>.</span><span id="1,1"></span>╔══════════════════════╗
<a href="https://tilde.town/~troido/cadastre/">|</a> (%&amp;8)  <a href="https://tilde.town/~troido/entrance.html">/\</a>       _,__<a href="https://tilde.town/~troido/cadastre/">|</a>.║ Tilde.town Cadastre  ║
<a href="https://tilde.town/~troido/cadastre/">|</a>(&amp;(%)%)<a href="https://tilde.town/~troido/entrance.html">/  \</a>    . __,_<a href="https://tilde.town/~troido/cadastre/">|</a>.║                      ║
<a href="https://tilde.town/~troido/cadastre/">|</a> (%8%)<a href="https://tilde.town/~troido/entrance.html">/_##_\</a>   .     <a href="https://tilde.town/~troido/cadastre/">|</a>.║ Any tilde.town user  ║
<a href="https://tilde.town/~troido/cadastre/">|</a>  ||/ <a href="https://tilde.town/~troido/entrance.html">|    |</a>   . @   <a href="https://tilde.town/~troido/cadastre/">|</a>.║ can claim a parcel   ║
<a href="https://tilde.town/~troido/cadastre/">|</a>  ||  <a href="https://tilde.town/~troido/entrance.html">| /\ |</a> * . @   <a href="https://tilde.town/~troido/cadastre/">|</a>.║ of land to show some ║
<a href="https://tilde.town/~troido/cadastre/">|</a>  ||  <a href="https://tilde.town/~troido/entrance.html">|_||_|</a>   .     <a href="https://tilde.town/~troido/cadastre/">|</a>.║ awesome ascii art    ║
<a href="https://tilde.town/~troido/cadastre/">|</a>        ..  *  . "'` <a href="https://tilde.town/~troido/cadastre/">|</a>.║                      ║
<a href="https://tilde.town/~troido/cadastre/">|</a> (%) O  ........     <a href="https://tilde.town/~troido/cadastre/">|</a>.║ * <a href="https://tilde.town/~troido/cadastre">Instructions</a>       ║
<a href="https://tilde.town/~troido/cadastre/">|</a>        ..    <a href="https://tilde.town/~troido/index.html">~troido</a><a href="https://tilde.town/~troido/cadastre/">|</a>.║ * <a href="https://github.com/jmdejong/cadastre">source (github)</a>    ║
<a href="https://tilde.town/~troido/cadastre/">+=======#  #==========+</a>.║      Made by <a href="https://tilde.town/~troido/index.html">~troido</a> ║
........................╚══════════════════════╝
</pre></body>
<!-- Cadastre made by ~troido; art by tilde.town users -->
</html>
"#;
    compare_text(&text, expected);
}

fn little_town() -> Cadastre {
    Cadastre {
        background: Background(8138474425133413201),
        places: vec![
            Parcel {
                owner: Owner::user("vilmibm"),
                location: Pos::new(0, 0),
                art: [
                    "+------.................",
                    "|      |               .",
                    " . |      |           . ",
                    "..|          |         .",
                    "|              |       .",
                    "|                 |   . ",
                    "|     feels         |.  ",
                    "|       must          | ",
                    "|         flow         |",
                    "|         _            |",
                    "|      ---  -_         |",
                    "+------ .......--------π"
                ].map(String::from).to_vec(),
                mask: [
                    "+------.................",
                    "|      |               .",
                    " . |      |           . ",
                    "..|          |         .",
                    "|              |       .",
                    "|                 |   . ",
                    "|     11111         |.  ",
                    "|       1111          | ",
                    "|         1111         |",
                    "|         _            |",
                    "|      ---  -_         |",
                    "+------ .......--------2"
                ].map(String::from).to_vec(),
                links: links_from(&[('1', "https://tilde.town/~vilmibm"), ('2', "https://libraryofbabel.info/random.cgi")])
            },
            Parcel {
                owner: Owner::user("troido"),
                location: Pos::new(0, 1),
                art: [
                    "+==()=================+.",
                    "| (%&8)  /\\       _,__|.",
                    "|(&(%)%)/  \\    . __,_|.",
                    "| (%8%)/_##_\\   .     |.",
                    "|  ||/ |    |   . @   |.",
                    "|  ||  | /\\ | * . @   |.",
                    "|  ||  |_||_|   .     |.",
                    "|        ..  *  . \"'` |.",
                    "| (%) O  ........     |.",
                    "|        ..    ~troido|.",
                    "+=======#  #==========+.",
                    "........................"
                ].map(String::from).to_vec(),
                mask: [
                    "111()111111111111111111.",
                    "1 (%&8)  33       _,__1.",
                    "1(&(%)%)3333    . __,_1.",
                    "1 (%8%)333333   .     1.",
                    "1  ||/ 333333   . @   1.",
                    "1  ||  333333 * . @   1.",
                    "1  ||  333333   .     1.",
                    "1        ..  *  . \"'` 1.",
                    "1 (%) O  ........     1.",
                    "1        ..    22222221.",
                    "11111111111111111111111.",
                    "........................"
                ].map(String::from).to_vec(),
                links: links_from(&[('1', "https://tilde.town/~troido/cadastre/"), ('2', "https://tilde.town/~troido/index.html"), ('3', "https://tilde.town/~troido/entrance.html")])
            },
            Parcel {
                owner: Owner::Admin,
                location: Pos::new(1, 1),
                art: [
                    "╔══════════════════════╗",
                    "║ Tilde.town Cadastre  ║",
                    "║                      ║",
                    "║ Any tilde.town user  ║",
                    "║ can claim a parcel   ║",
                    "║ of land to show some ║",
                    "║ awesome ascii art    ║",
                    "║                      ║",
                    "║ * Instructions       ║",
                    "║ * source (github)    ║",
                    "║      Made by ~troido ║",
                    "╚══════════════════════╝"
                ].map(String::from).to_vec(),
                mask: [
                    "~~~~~~~~~~~~~~~~~~~~~~~~",
                    "~ Tilde.town Cadastre  ~",
                    "~                      ~",
                    "~ Any tilde.town user  ~",
                    "~ can claim a parcel   ~",
                    "~ of land to show some ~",
                    "~ awesome ascii art    ~",
                    "~                      ~",
                    "~ * 111111111111       ~",
                    "~ * 222222222222222    ~",
                    "~      Made by 3333333 ~",
                    "~~~~~~~~~~~~~~~~~~~~~~~~"
                ].map(String::from).to_vec(),
                links: links_from(&[('1', "https://tilde.town/~troido/cadastre"), ('2', "https://github.com/jmdejong/cadastre"), ('3', "https://tilde.town/~troido/index.html")])
            },
            Parcel {
                owner: Owner::Public,
                location: Pos::new(1, 0),
                art: [
                    "                       .",
                    "                       .",
                    "__                     .",
                    " ~\\________            .",
                    "_   ~  ~   \\_ {%%}     .",
                    " \\_______~<><{%%%%}    .",
                    "         \\   ~{%%}     .",
                    "          \\><>!||      .",
                    "          |~  !||      .",
                    "           \\  ~ `\\     .",
                    "            \\__   \\    .",
                    "               \\~  |   ."
                ].map(String::from).to_vec(),
                mask: [
                    "                        ",
                    "                        ",
                    "                        ",
                    "                        ",
                    "                        ",
                    "                        ",
                    "                        ",
                    "                        ",
                    "                        ",
                    "                        ",
                    "                        ",
                    "                        "
                ].map(String::from).to_vec(),
                links: Links::new()
            }
        ]
    }
}

#[test]
fn deserializes_serialized() {
    let town = little_town();
    assert_eq!(Cadastre::from_record(&town.to_record()).unwrap(), town);
}

fn compare_text(s1: &str, s2: &str) {
    for (i, (l1, l2)) in s1.lines().zip(s2.lines()).enumerate() {
        assert_eq!(l1, l2, "mismatch on line {}", i);
    }
    assert_eq!(s1, s2);
}

#[test]
fn higher_priority_claims_cell_in_empty_town() {
    // admin enumerated first, public second: admin holds the cell
    let cadastre = Cadastre::build(&Cadastre::empty(), vec![
    Parcel::empty(Owner::Admin, Pos::new(2, 3)),
    Parcel::empty(Owner::Public, Pos::new(2, 3)),
    ]);
    assert_eq!(cadastre.owner_of(Pos::new(2, 3)), Some(Owner::Admin));
    // and in the other order as well
    let cadastre = Cadastre::build(&Cadastre::empty(), vec![
    Parcel::empty(Owner::Public, Pos::new(2, 3)),
    Parcel::empty(Owner::Admin, Pos::new(2, 3)),
    ]);
    assert_eq!(cadastre.owner_of(Pos::new(2, 3)), Some(Owner::Admin));
}

#[test]
fn incumbent_user_keeps_cell_in_either_order() {
    let old = Cadastre::build(&Cadastre::empty(), vec![
    Parcel::empty(Owner::user("alice"), Pos::new(0, 0)),
    ]);
    let next = Cadastre::build(&old, vec![
    Parcel::empty(Owner::user("alice"), Pos::new(0, 0)),
    Parcel::empty(Owner::user("bob"), Pos::new(0, 0)),
    ]);
    assert_eq!(next.owner_of(Pos::new(0, 0)), Some(Owner::user("alice")));
    let next = Cadastre::build(&old, vec![
    Parcel::empty(Owner::user("bob"), Pos::new(0, 0)),
    Parcel::empty(Owner::user("alice"), Pos::new(0, 0)),
    ]);
    assert_eq!(next.owner_of(Pos::new(0, 0)), Some(Owner::user("alice")));
}

#[test]
fn empty_candidate_stream_reverts_land_and_advances_seed() {
    let old = some_cadastre();
    let next = Cadastre::build(&old, vec![]);
    assert_eq!(next.owner_of(Pos::new(2, 3)), None);
    assert_eq!(next.owner_of(Pos::new(2, 2)), None);
    assert_eq!(next.background, old.background.next());
}

#[test]
fn background_seed_advances_deterministically() {
    assert_eq!(Background(1).next(), Background(264));
    let b = Background(8138474425133413201);
    // a pure function of seed and coordinate
    assert_eq!(b.char_at(Pos::new(3, 7)), b.char_at(Pos::new(3, 7)));
}

#[test]
fn poskey_round_trip_at_extremes() {
    let key = PosKey::new(i64::MIN, i64::MAX);
    assert_eq!(PosKey::parse(&key.to_text()).unwrap(), key);
    assert_eq!(key.to_text(), "-9223372036854775808,9223372036854775807");
    assert_eq!(PosKey::parse("no comma here"), None);
    assert_eq!(PosKey::parse("3,4x"), None);
}

#[test]
fn record_survives_missing_linkmask() {
    let town = little_town();
    let mut record = town.to_record();
    for entry in record.places.iter_mut() {
    entry.1.linkmask = None;
}
    let back = Cadastre::from_record(&record).unwrap();
    // a missing mask reads as the art
    for parcel in back.places.iter() {
    assert_eq!(parcel.mask, parcel.art);
}
}

#[test]
fn record_rejects_duplicate_locations() {
    let town = Cadastre::build(&Cadastre::empty(), vec![
    Parcel::empty(Owner::Public, Pos::new(1, 1)),
    ]);
    let mut record = town.to_record();
    let copy = town.to_record().places.remove(0);
    record.places.push(copy);
    assert!(Cadastre::from_record(&record).is_none());
}

#[test]
fn admin_sentinel_never_reads_back_as_user() {
    let town = Cadastre::build(&Cadastre::empty(), vec![
    Parcel::empty(Owner::Admin, Pos::new(0, 0)),
    ]);
    let record = town.to_record();
    assert_eq!(record.places[0].1.owner, Some("@_admin".to_string()));
    let back = Cadastre::from_record(&record).unwrap();
    assert_eq!(back.owner_of(Pos::new(0, 0)), Some(Owner::Admin));
}

#[test]
fn deserialize_town_from_json() {
    let town = r#"
{
"places": {
"0,0": {
"owner": "vilmibm",
"location": [0, 0],
"art": [
"+------.................",
"|      |               .",
" . |      |           . ",
"..|          |         .",
"|              |       .",
"|                 |   . ",
"|     feels         |.  ",
"|       must          | ",
"|         flow         |",
"|         _            |",
"|      ---  -_         |",
"+------ .......--------π"
],
"linkmask": [
"+------.................",
"|      |               .",
" . |      |           . ",
"..|          |         .",
"|              |       .",
"|                 |   . ",
"|     11111         |.  ",
"|       1111          | ",
"|         1111         |",
"|         _            |",
"|      ---  -_         |",
"+------ .......--------2"
],
"links": {
"1": "https://tilde.town/~vilmibm",
"2": "https://libraryofbabel.info/random.cgi"
}
},
"0,1": {
"owner": "troido",
"location": [0, 1],
"art": [
"+==()=================+.",
"| (%&8)  /\\       _,__|.",
"|(&(%)%)/  \\    . __,_|.",
"| (%8%)/_##_\\   .     |.",
"|  ||/ |    |   . @   |.",
"|  ||  | /\\ | * . @   |.",
"|  ||  |_||_|   .     |.",
"|        ..  *  . \"'` |.",
"| (%) O  ........     |.",
"|        ..    ~troido|.",
"+=======#  #==========+.",
"........................"
],
"linkmask": [
"111()111111111111111111.",
"1 (%&8)  33       _,__1.",
"1(&(%)%)3333    . __,_1.",
"1 (%8%)333333   .     1.",
"1  ||/ 333333   . @   1.",
"1  ||  333333 * . @   1.",
"1  ||  333333   .     1.",
"1        ..  *  . \"'` 1.",
"1 (%) O  ........     1.",
"1        ..    22222221.",
"11111111111111111111111.",
"........................"
],
"links": {
"1": "https://tilde.town/~troido/cadastre/",
"2": "https://tilde.town/~troido/index.html",
"3": "https://tilde.town/~troido/entrance.html"
}
},
"1,1": {
"owner": "@_admin",
"location": [1, 1],
"art": [
"╔══════════════════════╗",
"║ Tilde.town Cadastre  ║",
"║                      ║",
"║ Any tilde.town user  ║",
"║ can claim a parcel   ║",
"║ of land to show some ║",
"║ awesome ascii art    ║",
"║                      ║",
"║ * Instructions       ║",
"║ * source (github)    ║",
"║      Made by ~troido ║",
"╚══════════════════════╝"
],
"linkmask": [
"~~~~~~~~~~~~~~~~~~~~~~~~",
"~ Tilde.town Cadastre  ~",
"~                      ~",
"~ Any tilde.town user  ~",
"~ can claim a parcel   ~",
"~ of land to show some ~",
"~ awesome ascii art    ~",
"~                      ~",
"~ * 111111111111       ~",
"~ * 222222222222222    ~",
"~      Made by 3333333 ~",
"~~~~~~~~~~~~~~~~~~~~~~~~"
],
"links": {
"1": "https://tilde.town/~troido/cadastre",
"2": "https://github.com/jmdejong/cadastre",
"3": "https://tilde.town/~troido/index.html"
}
},
"1,0": {
"owner": null,
"location": [1, 0],
"art": [
"                       .",
"                       .",
"__                     .",
" ~\\________            .",
"_   ~  ~   \\_ {%%}     .",
" \\_______~<><{%%%%}    .",
"         \\   ~{%%}     .",
"          \\><>!||      .",
"          |~  !||      .",
"           \\  ~ `\\     .",
"            \\__   \\    .",
"               \\~  |   ."
],
"linkmask": [
"                        ",
"                        ",
"                        ",
"                        ",
"                        ",
"                        ",
"                        ",
"                        ",
"                        ",
"                        ",
"                        ",
"                        "
],
"links": {}
}
},
"seed": 8138474425133413201
}
"#;
    let expected = little_town();
    let value: serde_json::Value = serde_json::from_str(town).unwrap();
    let des = Cadastre::from_record(&record_from_value(&value)).unwrap();
    for parcel in des.places.iter() {
        let other = expected.parcel(parcel.location).unwrap();
        assert_eq!(parcel, other);
    }
    assert_eq!(des, expected);
}

fn record_from_value(value: &serde_json::Value) -> TownRecord {
    let top = value.as_object().unwrap();
    let seed = top["seed"].as_i64().unwrap();
    let mut places = Vec::new();
    for (key, entry) in top["places"].as_object().unwrap() {
        let parcel = entry.as_object().unwrap();
        let owner = match &parcel["owner"] {
            serde_json::Value::Null => None,
            serde_json::Value::String(name) => Some(name.clone()),
            other => panic!("unexpected owner value: {:?}", other),
        };
        let location = parcel["location"].as_array().unwrap();
        let location = (
            location[0].as_i64().unwrap(),
            location[1].as_i64().unwrap(),
        );
        let string_rows = |field: &serde_json::Value| -> Vec<String> {
            field
                .as_array()
                .unwrap()
                .iter()
                .map(|row| row.as_str().unwrap().to_string())
                .collect()
        };
        let art = string_rows(&parcel["art"]);
        let linkmask = parcel.get("linkmask").map(&string_rows);
        let links = parcel["links"]
            .as_object()
            .unwrap()
            .iter()
            .map(|(k, url)| (k.clone(), url.as_str().unwrap().to_string()))
            .collect();
        places.push((key.clone(), ParcelRecord { owner, location, art, linkmask, links }));
    }
    TownRecord { places, seed }
}
