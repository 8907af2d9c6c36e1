use std::collections::{BTreeMap, BTreeSet, HashMap};
use std::ops;

use dbg_pls::{pretty, Config, DebugPls, Formatter};

#[derive(Copy, Clone, Hash, PartialEq, Eq, PartialOrd, Ord)]
pub struct Demo {
    foo: i32,
    bar: &'static str,
}

impl DebugPls for Demo {
    fn fmt(&self, f: Formatter) -> Formatter {
        f.debug_struct("Demo")
            .field("foo", &self.foo)
            .field("bar", &self.bar)
            .finish()
    }
}

fn render_set<V: DebugPls>(items: &Vec<V>) -> String {
    Formatter::new()
        .debug_set()
        .entries(items)
        .finish()
        .into_fragment()
        .render(&Config::default())
}

fn render_map<K: DebugPls, V: DebugPls>(entries: &Vec<(K, V)>) -> String {
    Formatter::new()
        .debug_map()
        .entries(entries)
        .finish()
        .into_fragment()
        .render(&Config::default())
}

#[test]
fn debug_struct() {
    let value = Demo {
        foo: 5,
        bar: "hello",
    };
    assert_eq!(pretty(&value), "Demo { foo: 5, bar: \"hello\" }");
}

#[test]
fn debug_struct_big() {
    let value = Demo {
        foo: 5,
        bar: "Hello, world! I am a very long string",
    };
    let expected = "\
Demo {
    foo: 5,
    bar: \"Hello, world! I am a very long string\",
}";
    assert_eq!(pretty(&value), expected);
}

#[test]
fn debug_nested_struct() {
    let mut val = vec![
        Demo {
            foo: 5,
            bar: "hello",
        };
        10
    ];
    val[6].bar = "Hello, world! I am a very long string";
    let expected = "\
[
    Demo { foo: 5, bar: \"hello\" },
    Demo { foo: 5, bar: \"hello\" },
    Demo { foo: 5, bar: \"hello\" },
    Demo { foo: 5, bar: \"hello\" },
    Demo { foo: 5, bar: \"hello\" },
    Demo { foo: 5, bar: \"hello\" },
    Demo {
        foo: 5,
        bar: \"Hello, world! I am a very long string\",
    },
    Demo { foo: 5, bar: \"hello\" },
    Demo { foo: 5, bar: \"hello\" },
    Demo { foo: 5, bar: \"hello\" },
]";
    assert_eq!(pretty(&val), expected);
}

#[test]
fn debug_small_set() {
    let set = BTreeSet::from([420, 69]);
    let items: Vec<i32> = set.into_iter().collect();
    let expected = "\
{
    69;
    420
}";
    assert_eq!(render_set(&items), expected);
}

#[test]
fn debug_nested_set() {
    let set = BTreeSet::from([
        Demo {
            foo: 5,
            bar: "hello",
        },
        Demo {
            foo: 5,
            bar: "Hello, world! I am a very long string",
        },
    ]);
    let items: Vec<Demo> = set.into_iter().collect();
    let expected = "\
{
    Demo {
        foo: 5,
        bar: \"Hello, world! I am a very long string\",
    };
    Demo { foo: 5, bar: \"hello\" }
}";
    assert_eq!(render_set(&items), expected);
}

#[test]
fn debug_map() {
    let map = BTreeMap::from([
        ("hello", 60),
        ("Hello, world! I am a very long string", 12),
    ]);
    let entries: Vec<(&str, i32)> = map.into_iter().collect();
    let expected = "\
{
    [\"Hello, world! I am a very long string\"] = 12;
    [\"hello\"] = 60;
}";
    assert_eq!(render_map(&entries), expected);
}

#[test]
fn debug_nested_map() {
    let map = BTreeMap::from([
        (
            Demo {
                foo: 5,
                bar: "hello",
            },
            60,
        ),
        (
            Demo {
                foo: 5,
                bar: "Hello, world! I am a very long string",
            },
            12,
        ),
    ]);
    let entries: Vec<(Demo, i32)> = map.into_iter().collect();
    let expected = "\
{
    [
        Demo {
            foo: 5,
            bar: \"Hello, world! I am a very long string\",
        },
    ] = 12;
    [Demo { foo: 5, bar: \"hello\" }] = 60;
}";
    assert_eq!(render_map(&entries), expected);
}

pub struct Generic<T> {
    arg: T,
}

impl<T: DebugPls> DebugPls for Generic<T> {
    fn fmt(&self, f: Formatter) -> Formatter {
        f.debug_struct("Generic").field("arg", &self.arg).finish()
    }
}

#[test]
fn debug_generic() {
    let value = Generic { arg: "string" };
    assert_eq!(pretty(&value), "Generic { arg: \"string\" }");
}

pub enum Option2<T> {
    Filled(T),
    Empty,
    Wtf { foo: i32 },
}

impl<T: DebugPls> DebugPls for Option2<T> {
    fn fmt(&self, f: Formatter) -> Formatter {
        match self {
            Option2::Filled(t) => f.debug_tuple_struct("Some").field(t).finish(),
            Option2::Empty => f.debug_ident("None"),
            Option2::Wtf { foo } => f.debug_struct("Wtf").field("foo", foo).finish(),
        }
    }
}

#[test]
fn some() {
    assert_eq!(pretty(&Option2::Filled(42)), "Some(42)");
}

#[test]
fn none() {
    assert_eq!(pretty(&Option2::<i32>::Empty), "None");
}

#[test]
fn wtf() {
    assert_eq!(pretty(&Option2::<i32>::Wtf { foo: 42 }), "Wtf { foo: 42 }");
}

pub struct Rangeful<T> {
    range: ops::Range<T>,
    range_from: ops::RangeFrom<T>,
    range_to: ops::RangeTo<T>,
    range_full: ops::RangeFull,
    range_inclusive: ops::RangeInclusive<T>,
    range_inclusive_to: ops::RangeToInclusive<T>,
}

impl<T: DebugPls> DebugPls for Rangeful<T> {
    fn fmt(&self, f: Formatter) -> Formatter {
        f.debug_struct("Rangeful")
            .field("range", &self.range)
            .field("range_from", &self.range_from)
            .field("range_to", &self.range_to)
            .field("range_full", &self.range_full)
            .field("range_inclusive", &self.range_inclusive)
            .field("range_inclusive_to", &self.range_inclusive_to)
            .finish()
    }
}

#[test]
fn ranges() {
    let value = Rangeful {
        range: 1..4,
        range_from: 1..,
        range_to: ..7,
        range_full: ..,
        range_inclusive: 1234..=1236,
        range_inclusive_to: ..=70,
    };
    let expected = "\
Rangeful {
    range: 1..4,
    range_from: 1..,
    range_to: ..7,
    range_full: ..,
    range_inclusive: 1234..=1236,
    range_inclusive_to: ..=70,
}";
    assert_eq!(pretty(&value), expected);
}

#[test]
fn pretty_macro() {
    let map = HashMap::from([("hello", 1), ("world", 2)]);
    let mut entries: Vec<(&str, i32)> = map.iter().map(|(k, v)| (*k, *v)).collect();
    entries.sort();
    assert_eq!(
        render_map(&entries),
        "{\n    [\"hello\"] = 1;\n    [\"world\"] = 2;\n}"
    );
    // map is moved through properly
    assert_eq!(map, HashMap::from([("hello", 1), ("world", 2),]));
}

#[test]
fn colors() {
    let map = HashMap::from([("hello", 1), ("world", 2)]);
    let mut entries: Vec<(&str, i32)> = map.iter().map(|(k, v)| (*k, *v)).collect();
    entries.sort();
    assert!(!render_map(&entries).is_empty());
    // map is moved through properly
    assert_eq!(map, HashMap::from([("hello", 1), ("world", 2),]));
}
