use sisko::order::{compare_keys, rank_of_integer, FloatKey, SortKey};
use sisko::text::{compare_text, Order};
use std::cmp::Ordering;

fn rank(x: f64) -> i64 {
    let bits = x.to_bits() as i64;
    if bits < 0 {
        bits ^ i64::MAX
    } else {
        bits
    }
}

fn float(x: f64) -> SortKey {
    SortKey::Float(FloatKey { rank: rank(x), text: x.to_string() })
}

#[test]
fn integers_rank_as_the_nearest_double() {
    let mut samples = vec![0, 1, -1, 2, 3, 10, -10, i64::MAX, i64::MIN, i64::MAX - 511, i64::MAX - 512];
    for e in 0..63 {
        for d in -3..4 {
            let n = (1_i64 << e).wrapping_add(d);
            samples.push(n);
            samples.push(n.wrapping_neg());
        }
    }
    let mut n: i64 = 88172645463325252;
    for _ in 0..2000 {
        n ^= n << 13;
        n ^= ((n as u64) >> 7) as i64;
        n ^= n << 17;
        samples.push(n);
    }
    for n in samples {
        assert_eq!(rank_of_integer(n), rank(n as f64), "{n}");
    }
}

#[test]
fn keys_compare_as_documented() {
    let text = |t: &str| SortKey::Text(t.into());
    assert_eq!(SortKey::Empty.cmp(&SortKey::Int(i64::MIN)), Ordering::Less);
    assert_eq!(text("x").cmp(&SortKey::Empty), Ordering::Greater);
    assert_eq!(SortKey::Empty.cmp(&SortKey::Empty), Ordering::Equal);
    assert_eq!(SortKey::Int(2).cmp(&SortKey::Int(10)), Ordering::Less);
    assert_eq!(float(2.5).cmp(&float(10.0)), Ordering::Less);
    assert_eq!(float(-0.0).cmp(&float(0.0)), Ordering::Less);
    assert_eq!(float(f64::NAN).cmp(&float(f64::INFINITY)), Ordering::Greater);
    assert_eq!(SortKey::Int(3).cmp(&float(2.5)), Ordering::Greater);
    assert_eq!(float(3.0).cmp(&SortKey::Int(3)), Ordering::Equal);
    assert_eq!(text("ABC").cmp(&text("abd")), Ordering::Less);
    assert_eq!(text("ABC").cmp(&text("abc")), Ordering::Equal);
    assert_eq!(SortKey::Int(10).cmp(&text("9")), Ordering::Less);
    assert_eq!(text("9").cmp(&SortKey::Int(10)), Ordering::Greater);
    assert_eq!(float(1.5).cmp(&text("1.5")), Ordering::Equal);
    assert_eq!(text("1.6").cmp(&float(1.5)), Ordering::Greater);
    assert_eq!(SortKey::Int(1).partial_cmp(&SortKey::Int(2)), Some(Ordering::Less));
    assert!(SortKey::Int(1) < SortKey::Int(2));
}

#[test]
fn comparing_the_other_way_turns_the_answer() {
    let keys = [
        SortKey::Empty,
        SortKey::Int(5),
        SortKey::Int(-5),
        float(4.5),
        SortKey::Text("Alpha".into()),
        SortKey::Text("5".into()),
    ];
    for a in &keys {
        for b in &keys {
            let there = compare_keys(a, b);
            let back = compare_keys(b, a);
            let turned = match there {
                Order::Before => Order::After,
                Order::Same => Order::Same,
                Order::After => Order::Before,
            };
            assert_eq!(back, turned);
        }
        assert_eq!(compare_keys(a, a), Order::Same);
    }
}

#[test]
fn texts_compare_as_the_standard_library_compares_them() {
    let texts = ["", "a", "ab", "b", "ä", "z", "\u{ffff}", "\u{10000}", "A"];
    for a in texts {
        for b in texts {
            let expected = match a.cmp(b) {
                Ordering::Less => Order::Before,
                Ordering::Equal => Order::Same,
                Ordering::Greater => Order::After,
            };
            assert_eq!(compare_text(a, b), expected);
        }
    }
}

#[test]
fn like_keys_have_a_consistent_order() {
    let limit = 1_i64 << 53;
    let numbers = [
        SortKey::Empty,
        SortKey::Int(-limit),
        float(-2.5),
        SortKey::Int(-1),
        float(0.5),
        SortKey::Int(3),
        float(3.0),
        SortKey::Int(limit),
    ];
    let texts = ["b", "A", "a", "", "Ä"].map(|t| SortKey::Text(t.into()));
    for keys in [&numbers[..], &texts[..]] {
        for a in keys {
            for b in keys {
                for c in keys {
                    if compare_keys(a, b) != Order::After && compare_keys(b, c) != Order::After {
                        assert_ne!(compare_keys(a, c), Order::After);
                    }
                }
            }
        }
    }
    assert!(rank_of_integer(limit - 1) < rank_of_integer(limit));
    assert_eq!(rank_of_integer(limit), rank_of_integer(limit + 1));
}
