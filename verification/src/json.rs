//! JSON text for property values: the serialized form in which a scalar
//! property is written onto a node's attribute sink.

use vstd::prelude::*;
use crate::decimal::{int_to_string, spec_int_decimal};
use crate::prop::{lemma_props_m, prop_m, props_m, Prop, PropM, Props, PropsM};

verus! {

/// The character for one hexadecimal digit.
pub open spec fn spec_hex_digit(d: nat) -> char {
    if d == 0 {
        '0'
    } else if d == 1 {
        '1'
    } else if d == 2 {
        '2'
    } else if d == 3 {
        '3'
    } else if d == 4 {
        '4'
    } else if d == 5 {
        '5'
    } else if d == 6 {
        '6'
    } else if d == 7 {
        '7'
    } else if d == 8 {
        '8'
    } else if d == 9 {
        '9'
    } else if d == 10 {
        'a'
    } else if d == 11 {
        'b'
    } else if d == 12 {
        'c'
    } else if d == 13 {
        'd'
    } else if d == 14 {
        'e'
    } else {
        'f'
    }
}

/// The JSON escape of one string character.
pub open spec fn spec_esc_char(c: char) -> Seq<char> {
    if c == '"' {
        seq!['\\', '"']
    } else if c == '\\' {
        seq!['\\', '\\']
    } else if c == '\u{8}' {
        seq!['\\', 'b']
    } else if c == '\u{c}' {
        seq!['\\', 'f']
    } else if c == '\n' {
        seq!['\\', 'n']
    } else if c == '\r' {
        seq!['\\', 'r']
    } else if c == '\t' {
        seq!['\\', 't']
    } else if (c as nat) < 0x20 {
        seq!['\\', 'u', '0', '0', spec_hex_digit((c as nat) / 16), spec_hex_digit((c as nat) % 16)]
    } else {
        seq![c]
    }
}

/// The JSON escape of a string body.
pub open spec fn spec_esc(s: Seq<char>) -> Seq<char>
    decreases s.len(),
{
    if s.len() == 0 {
        Seq::empty()
    } else {
        spec_esc(s.drop_last()) + spec_esc_char(s.last())
    }
}

/// The JSON text of a property value.
pub open spec fn json_of(p: PropM) -> Seq<char>
    decreases p,
{
    match p {
        PropM::Null => seq!['n', 'u', 'l', 'l'],
        PropM::Boolean(b) => if b {
            seq!['t', 'r', 'u', 'e']
        } else {
            seq!['f', 'a', 'l', 's', 'e']
        },
        PropM::Number(n) => spec_int_decimal(n),
        PropM::Str(s) => seq!['"'] + spec_esc(s) + seq!['"'],
        PropM::Array(a) => seq!['['] + json_of_items(a) + seq![']'],
        PropM::Object(o) => seq!['{'] + json_of_entries(o) + seq!['}'],
    }
}

/// The comma-joined JSON texts of array items.
pub open spec fn json_of_items(a: Seq<PropM>) -> Seq<char>
    decreases a,
    via json_of_items_decreases
{
    if a.len() == 0 {
        Seq::empty()
    } else if a.len() == 1 {
        json_of(a.last())
    } else {
        json_of_items(a.drop_last()) + seq![','] + json_of(a.last())
    }
}

#[via_fn]
proof fn json_of_items_decreases(a: Seq<PropM>) {
    if a.len() > 0 {
        assert(decreases_to!(a => a[a.len() - 1]));
        assert(decreases_to!(a => a.subrange(0, a.len() - 1)));
    }
}

/// The comma-joined `"key":value` JSON texts of object entries.
pub open spec fn json_of_entries(o: PropsM) -> Seq<char>
    decreases o,
    via json_of_entries_decreases
{
    if o.len() == 0 {
        Seq::empty()
    } else if o.len() == 1 {
        json_of_entry(o.last())
    } else {
        json_of_entries(o.drop_last()) + seq![','] + json_of_entry(o.last())
    }
}

/// The `"key":value` JSON text of one object entry.
pub open spec fn json_of_entry(e: (Seq<char>, PropM)) -> Seq<char>
    decreases e,
{
    seq!['"'] + spec_esc(e.0) + seq!['"', ':'] + json_of(e.1)
}

#[via_fn]
proof fn json_of_entries_decreases(o: PropsM) {
    if o.len() > 0 {
        assert(decreases_to!(o => o[o.len() - 1]));
        assert(decreases_to!(o => o[o.len() - 1].1));
        assert(decreases_to!(o => o.subrange(0, o.len() - 1)));
    }
}

/// A one-character string slice for the hexadecimal digit `d`.
fn hex_digit_str(d: u32) -> (r: &'static str)
    requires
        d < 16,
    ensures
        r@.len() == 1,
        r@[0] == spec_hex_digit(d as nat),
{
    if d == 0 {
        proof {
            reveal_strlit("0");
        }
        "0"
    } else if d == 1 {
        proof {
            reveal_strlit("1");
        }
        "1"
    } else if d == 2 {
        proof {
            reveal_strlit("2");
        }
        "2"
    } else if d == 3 {
        proof {
            reveal_strlit("3");
        }
        "3"
    } else if d == 4 {
        proof {
            reveal_strlit("4");
        }
        "4"
    } else if d == 5 {
        proof {
            reveal_strlit("5");
        }
        "5"
    } else if d == 6 {
        proof {
            reveal_strlit("6");
        }
        "6"
    } else if d == 7 {
        proof {
            reveal_strlit("7");
        }
        "7"
    } else if d == 8 {
        proof {
            reveal_strlit("8");
        }
        "8"
    } else if d == 9 {
        proof {
            reveal_strlit("9");
        }
        "9"
    } else if d == 10 {
        proof {
            reveal_strlit("a");
        }
        "a"
    } else if d == 11 {
        proof {
            reveal_strlit("b");
        }
        "b"
    } else if d == 12 {
        proof {
            reveal_strlit("c");
        }
        "c"
    } else if d == 13 {
        proof {
            reveal_strlit("d");
        }
        "d"
    } else if d == 14 {
        proof {
            reveal_strlit("e");
        }
        "e"
    } else {
        proof {
            reveal_strlit("f");
        }
        "f"
    }
}

/// Appends the JSON escape of the string `s` to `out`.
fn append_escaped(out: &mut String, s: &String)
    ensures
        final(out)@ == old(out)@ + spec_esc(s@),
{
    let ghost base = old(out)@;
    let n = s.as_str().unicode_len();
    let mut i: usize = 0;
    proof {
        assert(out@ =~= base + spec_esc(s@.take(0)));
    }
    while i < n
        invariant
            i <= n,
            n == s@.len(),
            out@ == base + spec_esc(s@.take(i as int)),
        decreases n - i,
    {
        let c = s.as_str().get_char(i);
        proof {
            assert(s@.take(i + 1 as int).drop_last() =~= s@.take(i as int));
            assert(s@.take(i + 1 as int).last() == c);
        }
        if c == '"' {
            proof {
                reveal_strlit("\\\"");
            }
            out.append("\\\"");
            proof {
                assert("\\\""@ =~= spec_esc_char(c));
            }
        } else if c == '\\' {
            proof {
                reveal_strlit("\\\\");
            }
            out.append("\\\\");
            proof {
                assert("\\\\"@ =~= spec_esc_char(c));
            }
        } else if c == '\u{8}' {
            proof {
                reveal_strlit("\\b");
            }
            out.append("\\b");
            proof {
                assert("\\b"@ =~= spec_esc_char(c));
            }
        } else if c == '\u{c}' {
            proof {
                reveal_strlit("\\f");
            }
            out.append("\\f");
            proof {
                assert("\\f"@ =~= spec_esc_char(c));
            }
        } else if c == '\n' {
            proof {
                reveal_strlit("\\n");
            }
            out.append("\\n");
            proof {
                assert("\\n"@ =~= spec_esc_char(c));
            }
        } else if c == '\r' {
            proof {
                reveal_strlit("\\r");
            }
            out.append("\\r");
            proof {
                assert("\\r"@ =~= spec_esc_char(c));
            }
        } else if c == '\t' {
            proof {
                reveal_strlit("\\t");
            }
            out.append("\\t");
            proof {
                assert("\\t"@ =~= spec_esc_char(c));
            }
        } else if (c as u32) < 0x20 {
            proof {
                reveal_strlit("\\u00");
            }
            out.append("\\u00");
            let code = c as u32;
            out.append(hex_digit_str(code / 16));
            out.append(hex_digit_str(code % 16));
            proof {
                assert("\\u00"@ =~= seq!['\\', 'u', '0', '0']);
                assert(out@ =~= base + spec_esc(s@.take(i as int)) + spec_esc_char(c));
            }
        } else {
            let one = s.as_str().substring_char(i, i + 1);
            out.append(one);
            proof {
                assert(one@ =~= spec_esc_char(c));
            }
        }
        proof {
            assert(out@ =~= base + spec_esc(s@.take(i + 1 as int)));
        }
        i = i + 1;
    }
    proof {
        assert(s@.take(n as int) =~= s@);
    }
}

/// The JSON text of the value `p`, exactly as the serialized form that a
/// scalar property is written with.
#[verifier::loop_isolation(false)]
pub fn to_json_string(p: &Prop) -> (r: String)
    ensures
        r@ == json_of(p@),
    decreases p,
{
    match p {
        Prop::Null => {
            proof {
                reveal_strlit("null");
            }
            let r = String::from_str("null");
            proof {
                assert(r@ =~= json_of(p@));
            }
            r
        },
        Prop::Boolean(b) => {
            if *b {
                proof {
                    reveal_strlit("true");
                }
                let r = String::from_str("true");
                proof {
                    assert(r@ =~= json_of(p@));
                }
                r
            } else {
                proof {
                    reveal_strlit("false");
                }
                let r = String::from_str("false");
                proof {
                    assert(r@ =~= json_of(p@));
                }
                r
            }
        },
        Prop::Number(n) => {
            let r = int_to_string(*n);
            proof {
                assert(r@ =~= json_of(p@));
            }
            r
        },
        Prop::Str(s) => {
            proof {
                reveal_strlit("\"");
            }
            let mut r = String::from_str("\"");
            proof {
                assert(r@ =~= seq!['"']);
            }
            append_escaped(&mut r, s);
            r.append("\"");
            proof {
                assert(r@ =~= json_of(p@));
            }
            r
        },
        Prop::Array(a) => {
            proof {
                reveal_strlit("[");
                reveal_strlit("]");
                reveal_strlit(",");
            }
            let mut r = String::from_str("[");
            let ghost items = p@->Array_0;
            let mut i: usize = 0;
            proof {
                assert(items.len() == a@.len());
                assert(r@ =~= seq!['['] + json_of_items(items.take(0)));
            }
            while i < a.len()
                invariant
                    i <= a@.len(),
                    items.len() == a@.len(),
                    forall|k: int| 0 <= k < a@.len() ==> items[k] == prop_m(#[trigger] a@[k]),
                    r@ == seq!['['] + json_of_items(items.take(i as int)),
                decreases a@.len() - i,
            {
                if i > 0 {
                    r.append(",");
                }
                proof {
                    assert(decreases_to!(*p => *a));
                    assert(decreases_to!(*a => (*a)[i as int]));
                }
                let item = to_json_string(&a[i]);
                r.append(item.as_str());
                proof {
                    let pre = items.take(i as int);
                    let cur = items.take(i + 1 as int);
                    assert(cur.drop_last() =~= pre);
                    assert(cur.last() == items[i as int]);
                    if i == 0 {
                        assert(r@ =~= seq!['['] + json_of_items(cur));
                    } else {
                        assert(r@ =~= seq!['['] + json_of_items(cur));
                    }
                }
                i = i + 1;
            }
            r.append("]");
            proof {
                assert(items.take(items.len() as int) =~= items);
                assert(r@ =~= json_of(p@));
            }
            r
        },
        Prop::Object(ps) => {
            proof {
                reveal_strlit("{");
                reveal_strlit("}");
                reveal_strlit(",");
                reveal_strlit("\"");
                reveal_strlit(":");
            }
            let mut r = String::from_str("{");
            let ghost entries = p@->Object_0;
            let n = ps.entries.len();
            let mut i: usize = 0;
            proof {
                lemma_props_m(*ps);
                assert(r@ =~= seq!['{'] + json_of_entries(entries.take(0)));
            }
            while i < n
                invariant
                    i <= n,
                    n == ps.entries@.len(),
                    entries == props_m(*ps),
                    entries.len() == ps.entries@.len(),
                    forall|k: int|
                        0 <= k < ps.entries@.len() ==> entries[k] == (
                            #[trigger] ps.entries@[k].0@,
                            prop_m(ps.entries@[k].1),
                        ),
                    r@ == seq!['{'] + json_of_entries(entries.take(i as int)),
                decreases n - i,
            {
                if i > 0 {
                    r.append(",");
                }
                r.append("\"");
                append_escaped(&mut r, &ps.entries[i].0);
                r.append("\":");
                proof {
                    assert(decreases_to!(*p => *ps));
                    assert(decreases_to!(*ps => ps.entries));
                    assert(decreases_to!(ps.entries => ps.entries[i as int]));
                    assert(decreases_to!(ps.entries@[i as int] => ps.entries@[i as int].1));
                }
                let item = to_json_string(&ps.entries[i].1);
                r.append(item.as_str());
                proof {
                    reveal_strlit("\":");
                    assert("\":"@ =~= seq!['"', ':']);
                    let pre = entries.take(i as int);
                    let cur = entries.take(i + 1 as int);
                    assert(cur.drop_last() =~= pre);
                    assert(cur.last() == entries[i as int]);
                    let et = json_of_entry(entries[i as int]);
                    assert(et == seq!['"'] + spec_esc(entries[i as int].0) + seq!['"', ':']
                        + json_of(entries[i as int].1));
                    if i == 0 {
                        assert(json_of_entries(cur) == et);
                    } else {
                        assert(json_of_entries(cur) == json_of_entries(pre) + seq![','] + et);
                    }
                    assert(r@ =~= seq!['{'] + json_of_entries(cur));
                }
                i = i + 1;
            }
            r.append("}");
            proof {
                assert(entries.take(entries.len() as int) =~= entries);
                assert(r@ =~= json_of(p@));
            }
            r
        },
    }
}

} // verus!
