//! Documents survive being written and read.

use cc_switch::json::{parse_json, write_json, write_json_pretty};
use cc_switch::numeric::Numeric;
use cc_switch::value::{Datum, Table};
use cc_switch::yaml::{parse_yaml, parse_yaml_as_json, write_yaml};

const AMBIGUOUS: &[&str] = &[
    "", " ", "  a", "a  ", "a b", "true", "True", "no", "y", "null", "~", "1", "-1", "+1", "01", "-01",
    "0x1F", "-0x1F", "0o7", "0b1", "1_000", "1e3", "1.", ".5", "+.5", ".inf", "-.inf", ".nan", "inf",
    "NaN", "infinity", "18446744073709551616", "-", "--", "---", "--- a", "-a", "- a", ".", "..", "...",
    "... a", "?", "? a", "?a", ":", ": a", ":a", "a:", "a: b", "a:b", "a :b", "#", "#a", "a#b", "a #b",
    "!", "!a", "!!a", "&a", "*a", "%a", "%TAG ! !", "@a", "`a", "{", "{a", "}", "[", "[a", "]", ",", ",a",
    "|", "|a", ">", ">a", "'", "''", "'a'", "\"", "\"a\"", "a'b", "a\"b", "\\", "\\n", "a\\", "<<", "=",
    "https://x.example:8/y?z=1#t", "{a: b}", "[1, 2]", "a, b", "键 值", "名:字", "\u{a0}", "\u{a0}a", "é",
    "\u{d7ff}", "\u{e000}", "\u{fffd}", "\u{10000}", "\u{10ffff}", "🦀", "🦀: #", "~/a", "1 2", "2001-01-01",
];

fn shown(v: &Datum) -> String {
    format!("{v:?}")
}

/// YAML keeps a document, also behind a declaration of tags where it is no scalar.
fn kept_by_yaml(v: &Datum) {
    let text = write_yaml(v).unwrap();
    assert_eq!(shown(&parse_yaml(&text).unwrap()), shown(v), "{text}");
    assert_eq!(shown(&parse_yaml_as_json(&text).unwrap()), shown(v), "{text}");
    if matches!(v, Datum::List(_) | Datum::Mapping(_)) {
        assert!(!text.trim().is_empty());
        let declared = format!("%TAG !! !!!\n---\n{text}");
        assert_eq!(shown(&parse_yaml(&declared).unwrap()), shown(v), "{text}");
    }
}

/// YAML reads the JSON text of a document as that document.
fn kept_in_flow(v: &Datum) {
    let line = write_json(v).unwrap();
    assert_eq!(shown(&parse_yaml(&line).unwrap()), shown(v), "{line}");
}

fn kept(v: &Datum) {
    kept_by_yaml(v);
    kept_in_flow(v);
    let text = write_json_pretty(v).unwrap();
    assert_eq!(shown(&parse_json(&format!("{text}\n")).unwrap()), shown(v), "{text}");
}

struct Choice {
    state: u64,
    /// Texts have any characters, and not only those that YAML takes over from JSON.
    wild: bool,
    /// Values have tags.
    tags: bool,
}

impl Choice {
    fn below(&mut self, n: u64) -> u64 {
        self.state = self.state.wrapping_mul(6364136223846793005).wrapping_add(1442695040888963407);
        (self.state >> 33) % n
    }

    fn character(&mut self) -> char {
        if self.wild && self.below(3) == 0 {
            return loop {
                let code = match self.below(6) {
                    0 | 1 => 0x0a,
                    2 => 0x20,
                    3 => self.below(0xa1) as u32,
                    4 => [0x85, 0x2028, 0x2029, 0xfeff, 0xfffe, 0xffff][self.below(6) as usize],
                    _ => self.below(0x110000) as u32,
                };
                if let Some(c) = char::from_u32(code) {
                    break c;
                }
            };
        }
        match self.below(9) {
            8 => char::from(self.below(0x20) as u8),
            0..=4 => char::from(0x20 + self.below(0x5f) as u8),
            5 => ['#', ':', '-', '\'', '"', '\\', ' ', ','][self.below(8) as usize],
            _ => loop {
                let code = 0xa0 + self.below(0x110000 - 0xa0) as u32;
                if matches!(code, 0x2028 | 0x2029 | 0xfffe | 0xffff) {
                    continue;
                }
                if let Some(c) = char::from_u32(code) {
                    break c;
                }
            },
        }
    }

    fn text(&mut self, limit: u64) -> String {
        if self.below(3) == 0 {
            return AMBIGUOUS[self.below(AMBIGUOUS.len() as u64) as usize].to_string();
        }
        let n = self.below(limit);
        (0..n).map(|_| self.character()).collect()
    }

    fn document(&mut self, depth: u64) -> Datum {
        let document = self.untagged(depth);
        if self.tags && self.below(3) == 0 {
            let tag = ["!mine", "!a-B_9", "!str", "!null"][self.below(4) as usize];
            return Datum::Tagged(tag.to_string(), Box::new(document));
        }
        document
    }

    fn untagged(&mut self, depth: u64) -> Datum {
        match self.below(if depth == 0 { 5 } else { 8 }) {
            0 => Datum::Null,
            1 => Datum::Bool(self.below(2) == 0),
            2 => Datum::Number(Numeric::PosInt(self.below(1 << 31) * self.below(1 << 31))),
            3 => Datum::Number(Numeric::NegInt(-1 - self.below(1 << 31) as i64)),
            4 => Datum::Text(self.text(200)),
            5 => {
                let n = self.below(4);
                Datum::List((0..n).map(|_| self.document(depth - 1)).collect())
            }
            _ => {
                let mut table = Table::new();
                for _ in 0..self.below(5) {
                    let key = self.text(160);
                    let value = self.document(depth - 1);
                    table.insert(&key, value);
                }
                Datum::Mapping(table)
            }
        }
    }
}

#[test]
fn texts_that_look_like_something_else_are_kept() {
    for text in AMBIGUOUS {
        kept(&Datum::text(text));
        let mut table = Table::new();
        table.insert(text, Datum::text(text));
        table.insert("list", Datum::List(vec![Datum::text(text), Datum::List(vec![Datum::text(text)])]));
        kept(&Datum::Mapping(table));
    }
}

#[test]
fn documents_of_plain_texts_are_kept() {
    let mut choice = Choice { state: 7, wild: false, tags: false };
    for _ in 0..4000 {
        let document = choice.document(6);
        kept(&document);
    }
}

#[test]
fn yaml_keeps_documents_of_any_texts() {
    let mut choice = Choice { state: 23, wild: true, tags: false };
    for _ in 0..4000 {
        let document = choice.document(6);
        kept_by_yaml(&document);
    }
}

/// YAML reads a document as it has written it, also behind a declaration of tags.
fn restored(v: &Datum) {
    let text = write_yaml(v).unwrap();
    assert_eq!(shown(&parse_yaml(&text).unwrap()), shown(v), "{text}");
    if matches!(v, Datum::List(_) | Datum::Mapping(_)) {
        assert!(!text.trim().is_empty());
        let declared = format!("%TAG !! !!!\n---\n{text}");
        assert_eq!(shown(&parse_yaml(&declared).unwrap()), shown(v), "{text}");
    }
}

#[test]
fn yaml_reads_simple_tags_as_it_has_written_them() {
    let mut choice = Choice { state: 31, wild: true, tags: true };
    for _ in 0..4000 {
        restored(&choice.document(6));
    }
    let mut deep = Datum::Null;
    for _ in 0..64 {
        let mut table = Table::new();
        table.insert("k", Datum::Tagged("!t".to_string(), Box::new(Datum::List(vec![deep]))));
        deep = Datum::Tagged("!u".to_string(), Box::new(Datum::Mapping(table)));
    }
    restored(&deep);
}

#[test]
fn tags_may_have_almost_any_characters() {
    let inner = || Datum::List(vec![Datum::text("1"), Datum::Null]);
    for code in (1..0x180).chain([0x2028, 0xfeff, 0xffff, 0x1f980, 0x10ffff]) {
        let Some(c) = char::from_u32(code).filter(|c| !matches!(c, ',' | '[' | ']')) else {
            continue;
        };
        for tag in [format!("!{c}"), format!("!a{c}b"), format!("!x{c}")] {
            if tag.starts_with("!!") {
                continue;
            }
            let mut table = Table::new();
            table.insert("k", Datum::Tagged(tag.clone(), Box::new(Datum::text("v"))));
            table.insert("l", Datum::Tagged(tag.clone(), Box::new(inner())));
            table.insert("n", Datum::List(vec![Datum::Tagged(tag, Box::new(Datum::Null))]));
            restored(&Datum::Mapping(table));
        }
    }
}

#[test]
fn keys_may_be_compound_and_tagged() {
    let mut choice = Choice { state: 43, wild: true, tags: true };
    for _ in 0..3000 {
        let mut table = Table::new();
        for _ in 0..choice.below(4) {
            let key = choice.document(3);
            let value = choice.document(2);
            if table.position(&key).is_none() {
                table.entries.push((key, value));
            }
        }
        let lone = match table.entries.as_slice() {
            [(Datum::Tagged(..), _)] => true,
            [(Datum::Mapping(inner), _)] => inner.entries.len() == 1,
            _ => false,
        };
        if lone {
            assert!(write_yaml(&Datum::Mapping(table)).is_err());
        } else {
            restored(&Datum::List(vec![Datum::Mapping(table)]));
        }
    }
    let mut deep = Datum::Null;
    for _ in 0..64 {
        let entries = vec![(Datum::List(vec![deep]), Datum::Null)];
        deep = Datum::Mapping(Table { entries });
    }
    restored(&deep);
}

#[test]
fn keys_may_be_any_scalars() {
    let float = |x: f64| Datum::Number(Numeric::Float(serde_yaml::Number::from(x)));
    let scalars = || {
        vec![
            Datum::Null,
            Datum::Bool(true),
            Datum::Bool(false),
            Datum::Number(Numeric::PosInt(0)),
            Datum::Number(Numeric::PosInt(u64::MAX)),
            Datum::Number(Numeric::NegInt(-1)),
            Datum::Number(Numeric::NegInt(i64::MIN)),
            float(0.0),
            float(1.0),
            float(-1.5),
            float(1e300),
            float(5e-324),
            float(f64::INFINITY),
            float(f64::NEG_INFINITY),
            float(f64::NAN),
            Datum::text("0"),
            Datum::text("null"),
            Datum::text("true"),
            Datum::text("1.0"),
            Datum::text(""),
        ]
    };
    let whole = || Table { entries: scalars().into_iter().zip(scalars()).collect() };
    restored(&Datum::Mapping(whole()));
    for key in scalars() {
        let entries = vec![(key, Datum::List(vec![Datum::Mapping(whole())]))];
        restored(&Datum::List(vec![Datum::Mapping(Table { entries })]));
    }
    restored(&Datum::List(scalars()));
}

#[test]
fn every_control_character_is_kept_in_every_place() {
    for code in (0..0x100).chain([0x2028, 0x2029, 0xfeff, 0xfffe, 0xffff]) {
        let c = char::from_u32(code).unwrap();
        for text in [
            format!("{c}"),
            format!("a{c}b"),
            format!(" {c} "),
            format!("a\n{c}"),
            format!("{c}\nb\n\n"),
        ] {
            let mut table = Table::new();
            table.insert(&text, Datum::List(vec![Datum::text(&text), Datum::text("z")]));
            table.insert("list", Datum::List(vec![Datum::List(vec![Datum::text(&text)])]));
            let document = Datum::Mapping(table);
            kept_by_yaml(&document);
            kept_by_yaml(&Datum::text(&text));
            if !matches!(code, 0x7f..=0x9f | 0x2028 | 0x2029 | 0xfffe | 0xffff) {
                kept(&document);
            }
        }
    }
}

#[test]
fn keys_of_a_flow_mapping_fit_within_a_kilobyte() {
    for (c, width) in
        [("a", 1), ("\"", 2), ("\\", 2), ("\n", 2), ("\u{1}", 6), ("é", 2), ("键", 3), ("🦀", 4)]
    {
        let mut table = Table::new();
        table.insert(&c.repeat(1022 / width), Datum::Null);
        kept(&Datum::List(vec![Datum::Mapping(table)]));
        let mut table = Table::new();
        table.insert(&c.repeat(1022 / width + 1), Datum::Null);
        let document = Datum::List(vec![Datum::Mapping(table)]);
        kept_by_yaml(&document);
        assert!(parse_yaml(&write_json(&document).unwrap()).is_err());
    }
}

#[test]
fn long_keys_deep_levels_and_large_numbers_are_kept() {
    for c in ['a', '\'', '"', '\\', ' ', ':', '🦀'] {
        let key: String = std::iter::repeat(c).take(250).collect();
        let long: String = std::iter::repeat(c).take(20000).collect();
        let mut inner = Table::new();
        inner.insert(&key, Datum::text(&long));
        inner.insert("x", Datum::List(vec![Datum::text(&long)]));
        let mut table = Table::new();
        table.insert(&key, Datum::Mapping(inner));
        kept(&Datum::List(vec![Datum::Mapping(table)]));
    }
    for part in ["a\n", " \n", "\n ", "é\t", "b: \n# c\n\n", "\u{2028}", "\u{7f} "] {
        let long = part.repeat(1500);
        let mut table = Table::new();
        table.insert(&long, Datum::text(&long));
        table.insert("x", Datum::List(vec![Datum::text(&long), Datum::text(&long)]));
        kept_by_yaml(&Datum::List(vec![Datum::Mapping(table)]));
    }
    let mut list = Datum::Null;
    let mut mapping = Datum::text("end");
    for _ in 0..127 {
        list = Datum::List(vec![list]);
        let mut table = Table::new();
        table.insert("a key", mapping);
        mapping = Datum::Mapping(table);
    }
    kept(&list);
    kept(&mapping);
    let mut table = Table::new();
    table.insert("a key", mapping);
    for deeper in [Datum::List(vec![list]), Datum::Mapping(table)] {
        kept_by_yaml(&deeper);
        kept_in_flow(&deeper);
        assert!(parse_json(&write_json(&deeper).unwrap()).is_err());
    }
    for n in [0, 1, 9007199254740993, u64::MAX] {
        kept(&Datum::Number(Numeric::PosInt(n)));
    }
    for n in [-1, -9007199254740993, i64::MIN] {
        kept(&Datum::Number(Numeric::NegInt(n)));
    }
}

#[test]
fn yaml_keeps_finite_floats() {
    let mut choice = Choice { state: 11, wild: false, tags: false };
    let mut floats = vec![
        0.0, -0.0, 1.0, -1.5, 0.1, 1e16, 1e21, 1e-7, 5e-324, f64::MAX, f64::MIN_POSITIVE, f64::EPSILON,
    ];
    for _ in 0..3000 {
        floats.push(f64::from_bits(choice.below(1 << 31) << 33 | choice.below(1 << 31) << 2));
    }
    for x in floats {
        if !x.is_finite() {
            continue;
        }
        let v = Datum::List(vec![Datum::Number(Numeric::Float(serde_yaml::Number::from(x)))]);
        let text = write_yaml(&v).unwrap();
        for back in [
            parse_yaml(&text).unwrap(),
            parse_yaml_as_json(&text).unwrap(),
            parse_yaml(&write_json(&v).unwrap()).unwrap(),
        ] {
            let Datum::List(items) = &back else { panic!("{text}") };
            let Datum::Number(Numeric::Float(y)) = &items[0] else { panic!("{text}") };
            assert_eq!(y.as_f64().unwrap().to_bits(), x.to_bits(), "{text}");
        }
    }
}

#[test]
fn json_keeps_every_text() {
    let mut deep = Datum::text("\u{0}\u{7f}\u{85}\u{2028}\u{feff}\u{ffff}\r\n\t");
    for _ in 0..127 {
        deep = Datum::List(vec![deep]);
    }
    let text = write_json_pretty(&deep).unwrap();
    assert_eq!(shown(&parse_json(&format!("{text}\n")).unwrap()), shown(&deep));
    let deeper = write_json_pretty(&Datum::List(vec![deep])).unwrap();
    assert!(parse_json(&deeper).is_err());
}
