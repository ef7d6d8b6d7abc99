//! Escaping of arbitrary text for inclusion between double quotes in the
//! cookie payload: `"` and `\` get a backslash escape, control characters
//! become `\u00XY`, and everything else stands for itself.

use vstd::prelude::*;

use crate::text::{
    hex_char, hex_char_exec, hex_val, hex_val_exec, is_hex_char, lemma_char_value,
    lemma_hex_digit_round_trip,
};

verus! {

/// The escaped form of one character.
pub open spec fn esc_char(c: char) -> Seq<char> {
    if c == '"' {
        seq!['\\', '"']
    } else if c == '\\' {
        seq!['\\', '\\']
    } else if 0 <= (c as int) && (c as int) < 32 {
        let v = c as int;
        seq!['\\', 'u', '0', '0', hex_char(v / 16), hex_char(v % 16)]
    } else {
        seq![c]
    }
}

/// The escaped form of a text: each character escaped in order.
pub open spec fn esc(s: Seq<char>) -> Seq<char>
    decreases s.len(),
{
    if s.len() == 0 {
        Seq::empty()
    } else {
        esc_char(s[0]) + esc(s.drop_first())
    }
}

/// Reads an escaped text up to and over its closing double quote.
/// `Some((content, rest))` holds the unescaped content and what follows the
/// closing quote; `None` marks input in which no well-formed quoted text
/// starts, including input holding a raw control character.
pub open spec fn unesc(s: Seq<char>) -> Option<(Seq<char>, Seq<char>)>
    decreases s.len(),
{
    if s.len() == 0 {
        None
    } else if s[0] == '"' {
        Some((Seq::empty(), s.drop_first()))
    } else if s[0] == '\\' {
        if s.len() >= 2 && (s[1] == '"' || s[1] == '\\') {
            match unesc(s.skip(2)) {
                Some((content, rest)) => Some((seq![s[1]] + content, rest)),
                None => None,
            }
        } else if s.len() >= 6 && s[1] == 'u' && s[2] == '0' && s[3] == '0' && is_hex_char(s[4])
            && is_hex_char(s[5]) {
            match unesc(s.skip(6)) {
                Some((content, rest)) => Some(
                    (seq![((hex_val(s[4]) * 16 + hex_val(s[5])) as u8) as char] + content, rest),
                ),
                None => None,
            }
        } else {
            None
        }
    } else if 0 <= (s[0] as int) && (s[0] as int) < 32 {
        None
    } else {
        match unesc(s.drop_first()) {
            Some((content, rest)) => Some((seq![s[0]] + content, rest)),
            None => None,
        }
    }
}

/// Whatever comes back from a successful read is strictly shorter than the
/// input: the reader at least consumes the closing quote.
pub proof fn lemma_unesc_shorter(s: Seq<char>)
    ensures
        unesc(s) matches Some((content, rest)) ==> rest.len() < s.len(),
    decreases s.len(),
{
    if s.len() == 0 {
    } else if s[0] == '"' {
    } else if s[0] == '\\' {
        if s.len() >= 2 && (s[1] == '"' || s[1] == '\\') {
            lemma_unesc_shorter(s.skip(2));
        } else if s.len() >= 6 && s[1] == 'u' && s[2] == '0' && s[3] == '0' && is_hex_char(s[4])
            && is_hex_char(s[5]) {
            lemma_unesc_shorter(s.skip(6));
        }
    } else {
        lemma_unesc_shorter(s.drop_first());
    }
}

/// Escaped text followed by a closing quote reads back as itself: the
/// writer's escape and the reader's unescape are symmetric.
pub proof fn lemma_unesc_esc(s: Seq<char>, rest: Seq<char>)
    ensures
        unesc(esc(s) + seq!['"'] + rest) == Some((s, rest)),
    decreases s.len(),
{
    let t = esc(s) + seq!['"'] + rest;
    if s.len() == 0 {
        assert(t =~= seq!['"'] + rest);
        assert(t[0] == '"');
        assert(t.drop_first() =~= rest);
    } else {
        let c = s[0];
        let tail = s.drop_first();
        lemma_unesc_esc(tail, rest);
        let t2 = esc(tail) + seq!['"'] + rest;
        assert(unesc(t2) == Some((tail, rest)));
        if c == '"' || c == '\\' {
            assert(t =~= seq!['\\', c] + t2);
            assert(t[0] == '\\' && t[1] == c);
            assert(t.skip(2) =~= t2);
            assert(seq![c] + tail =~= s);
        } else if 0 <= (c as int) && (c as int) < 32 {
            let v = c as int;
            let hi = hex_char(v / 16);
            let lo = hex_char(v % 16);
            assert(t =~= seq!['\\', 'u', '0', '0', hi, lo] + t2);
            assert(t.len() >= 6);
            assert(t[0] == '\\' && t[1] == 'u' && t[2] == '0' && t[3] == '0' && t[4] == hi && t[5]
                == lo);
            assert(0 <= v / 16 && v / 16 < 16);
            assert(0 <= v % 16 && v % 16 < 16);
            lemma_hex_digit_round_trip(v / 16);
            lemma_hex_digit_round_trip(v % 16);
            assert(t.skip(6) =~= t2);
            let x = hex_val(t[4]) * 16 + hex_val(t[5]);
            assert(x == v);
            assert(0 <= x && x < 32);
            let y = x as u8;
            assert((y as int) == x);
            let d = y as char;
            assert((d as int) == (y as int));
            assert(d == c);
            assert(((hex_val(t[4]) * 16 + hex_val(t[5])) as u8) as char == c);
            assert(seq![c] + tail =~= s);
        } else {
            assert(t =~= seq![c] + t2);
            assert(t[0] == c);
            assert(t.drop_first() =~= t2);
            assert(seq![c] + tail =~= s);
        }
    }
}

/// Appends the escaped form of `s[i..]` to `out`.
pub fn esc_append(out: &mut Vec<char>, s: &Vec<char>, i: usize)
    requires
        i <= s.len(),
    ensures
        final(out)@ == old(out)@ + esc(s@.skip(i as int)),
    decreases s.len() - i,
{
    let ghost base = out@;
    if i < s.len() {
        let c = s[i];
        proof {
            lemma_char_value(c);
        }
        if c == '"' {
            out.push('\\');
            out.push('"');
        } else if c == '\\' {
            out.push('\\');
            out.push('\\');
        } else if (c as u32) < 32 {
            let v = c as u32;
            out.push('\\');
            out.push('u');
            out.push('0');
            out.push('0');
            out.push(hex_char_exec((v / 16) as u8));
            out.push(hex_char_exec((v % 16) as u8));
            proof {
                assert((v as int) == (c as int));
                assert(((v / 16) as u8) as int == (c as int) / 16);
                assert(((v % 16) as u8) as int == (c as int) % 16);
            }
        } else {
            out.push(c);
        }
        proof {
            assert(out@ =~= base + esc_char(s@[i as int]));
        }
        esc_append(out, s, i + 1);
        proof {
            let suf = s@.skip(i as int);
            assert(suf[0] == s@[i as int]);
            assert(suf.drop_first() =~= s@.skip(i as int + 1));
            assert(base + esc(suf) =~= (base + esc_char(s@[i as int])) + esc(
                s@.skip(i as int + 1),
            ));
        }
    } else {
        proof {
            assert(s@.skip(i as int) =~= Seq::<char>::empty());
            assert(base + esc(s@.skip(i as int)) =~= base);
        }
    }
}

/// Reads an escaped text in `s` from position `i`, as `unesc` does on the
/// suffix: the unescaped content and the position after the closing quote.
pub fn unesc_exec(s: &Vec<char>, i: usize) -> (r: Option<(Vec<char>, usize)>)
    requires
        i <= s.len(),
    ensures
        match unesc(s@.skip(i as int)) {
            Some((content, rest)) => (r matches Some((cv, j)) && cv@ == content && i < j <= s.len()
                && s@.skip(j as int) == rest),
            None => r is None,
        },
    decreases s.len() - i,
{
    let ghost sp = s@.skip(i as int);
    if i == s.len() {
        proof {
            assert(sp =~= Seq::<char>::empty());
        }
        return None;
    }
    proof {
        assert(sp.len() == s.len() - i);
        assert(sp[0] == s@[i as int]);
    }
    let c = s[i];
    proof {
        lemma_char_value(c);
    }
    if c == '"' {
        let content: Vec<char> = Vec::new();
        proof {
            assert(sp.drop_first() =~= s@.skip(i as int + 1));
        }
        Some((content, i + 1))
    } else if c == '\\' {
        if i + 1 < s.len() && (s[i + 1] == '"' || s[i + 1] == '\\') {
            proof {
                assert(sp[1] == s@[i as int + 1]);
                assert(sp.skip(2) =~= s@.skip(i as int + 2));
            }
            let e = s[i + 1];
            match unesc_exec(s, i + 2) {
                None => None,
                Some((mut content, j)) => {
                    let ghost tail = content@;
                    content.insert(0, e);
                    proof {
                        assert(content@ =~= seq![sp[1]] + tail);
                    }
                    Some((content, j))
                },
            }
        } else if s.len() - i >= 6 && s[i + 1] == 'u' && s[i + 2] == '0' && s[i + 3] == '0'
            && hex_val_exec(s[i + 4]) < 16 && hex_val_exec(s[i + 5]) < 16 {
            proof {
                assert(sp[1] == s@[i as int + 1]);
                assert(sp[2] == s@[i as int + 2]);
                assert(sp[3] == s@[i as int + 3]);
                assert(sp[4] == s@[i as int + 4]);
                assert(sp[5] == s@[i as int + 5]);
                assert(sp.skip(6) =~= s@.skip(i as int + 6));
            }
            let hi = hex_val_exec(s[i + 4]);
            let lo = hex_val_exec(s[i + 5]);
            let ch = ((hi * 16 + lo) as u8) as char;
            proof {
                assert(ch == ((hex_val(sp[4]) * 16 + hex_val(sp[5])) as u8) as char);
            }
            match unesc_exec(s, i + 6) {
                None => None,
                Some((mut content, j)) => {
                    let ghost tail = content@;
                    content.insert(0, ch);
                    proof {
                        assert(content@ =~= seq![
                            ((hex_val(sp[4]) * 16 + hex_val(sp[5])) as u8) as char,
                        ] + tail);
                    }
                    Some((content, j))
                },
            }
        } else {
            None
        }
    } else if (c as u32) < 32 {
        None
    } else {
        proof {
            assert(sp.drop_first() =~= s@.skip(i as int + 1));
        }
        match unesc_exec(s, i + 1) {
            None => None,
            Some((mut content, j)) => {
                let ghost tail = content@;
                content.insert(0, c);
                proof {
                    assert(content@ =~= seq![sp[0]] + tail);
                }
                Some((content, j))
            },
        }
    }
}

} // verus!
