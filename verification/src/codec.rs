//! The cookie payload text: `{"id":"<canonical identifier>","data":{...}}`.
//! The writer and the reader are stated over character sequences and proved
//! symmetric, so a payload written at scope exit reads back as the same
//! session identity and the same entries.

use vstd::prelude::*;

use crate::escape::{esc, esc_append, lemma_unesc_esc, lemma_unesc_shorter, unesc, unesc_exec};
use crate::text::{
    byte_hex, bytes_hex, chars_string, hex_char_exec, hex_val, hex_val_exec, lemma_bytes_hex_len,
    lemma_hex_bytes_round_trip, lemma_parse_hex_bytes_len, parse_hex_bytes, str_chars,
};

verus! {

/// The opening of the payload, up to the identifier's first character.
pub open spec fn id_prefix() -> Seq<char> {
    seq!['{', '"', 'i', 'd', '"', ':', '"']
}

/// What stands between the identifier and the first entry.
pub open spec fn data_prefix() -> Seq<char> {
    seq!['"', ',', '"', 'd', 'a', 't', 'a', '"', ':', '{']
}

/// The canonical text of a 16-byte identifier: five hexadecimal groups
/// of 8, 4, 4, 4 and 12 digits, joined by hyphens.
pub open spec fn uuid_text(b: Seq<u8>) -> Seq<char> {
    bytes_hex(b.subrange(0, 4)) + seq!['-'] + bytes_hex(b.subrange(4, 6)) + seq!['-'] + bytes_hex(
        b.subrange(6, 8),
    ) + seq!['-'] + bytes_hex(b.subrange(8, 10)) + seq!['-'] + bytes_hex(b.subrange(10, 16))
}

/// Reads the canonical identifier text back into its 16 bytes.
pub open spec fn parse_uuid(u: Seq<char>) -> Option<Seq<u8>> {
    if u.len() == 36 && u[8] == '-' && u[13] == '-' && u[18] == '-' && u[23] == '-' {
        match (
            parse_hex_bytes(u.subrange(0, 8)),
            parse_hex_bytes(u.subrange(9, 13)),
            parse_hex_bytes(u.subrange(14, 18)),
            parse_hex_bytes(u.subrange(19, 23)),
            parse_hex_bytes(u.subrange(24, 36)),
        ) {
            (Some(g1), Some(g2), Some(g3), Some(g4), Some(g5)) => Some(g1 + g2 + g3 + g4 + g5),
            _ => None,
        }
    } else {
        None
    }
}

pub proof fn lemma_uuid_text_len(b: Seq<u8>)
    requires
        b.len() == 16,
    ensures
        uuid_text(b).len() == 36,
{
    lemma_bytes_hex_len(b.subrange(0, 4));
    lemma_bytes_hex_len(b.subrange(4, 6));
    lemma_bytes_hex_len(b.subrange(6, 8));
    lemma_bytes_hex_len(b.subrange(8, 10));
    lemma_bytes_hex_len(b.subrange(10, 16));
}

/// The canonical identifier text reads back as the bytes it was written from.
pub proof fn lemma_uuid_round_trip(b: Seq<u8>)
    requires
        b.len() == 16,
    ensures
        parse_uuid(uuid_text(b)) == Some(b),
{
    let b1 = b.subrange(0, 4);
    let b2 = b.subrange(4, 6);
    let b3 = b.subrange(6, 8);
    let b4 = b.subrange(8, 10);
    let b5 = b.subrange(10, 16);
    lemma_bytes_hex_len(b1);
    lemma_bytes_hex_len(b2);
    lemma_bytes_hex_len(b3);
    lemma_bytes_hex_len(b4);
    lemma_bytes_hex_len(b5);
    lemma_hex_bytes_round_trip(b1);
    lemma_hex_bytes_round_trip(b2);
    lemma_hex_bytes_round_trip(b3);
    lemma_hex_bytes_round_trip(b4);
    lemma_hex_bytes_round_trip(b5);
    let u = uuid_text(b);
    assert(u.len() == 36);
    assert(u[8] == '-' && u[13] == '-' && u[18] == '-' && u[23] == '-');
    assert(u.subrange(0, 8) =~= bytes_hex(b1));
    assert(u.subrange(9, 13) =~= bytes_hex(b2));
    assert(u.subrange(14, 18) =~= bytes_hex(b3));
    assert(u.subrange(19, 23) =~= bytes_hex(b4));
    assert(u.subrange(24, 36) =~= bytes_hex(b5));
    assert(b1 + b2 + b3 + b4 + b5 =~= b);
}

/// One entry as text: the escaped key and the escaped value, each quoted,
/// joined by a colon.
pub open spec fn entry_text(p: (Seq<char>, Seq<char>)) -> Seq<char> {
    seq!['"'] + esc(p.0) + seq!['"', ':', '"'] + esc(p.1) + seq!['"']
}

/// All entries as text, joined by commas, in order.
pub open spec fn pairs_text(ps: Seq<(Seq<char>, Seq<char>)>) -> Seq<char>
    decreases ps.len(),
{
    if ps.len() == 0 {
        Seq::empty()
    } else if ps.len() == 1 {
        entry_text(ps[0])
    } else {
        entry_text(ps[0]) + seq![','] + pairs_text(ps.drop_first())
    }
}

/// Reads the entry list up to and over the closing brace of `data`.
/// `Some((entries, rest))` holds the entries in the order written and what
/// follows the brace.
pub open spec fn parse_pairs(s: Seq<char>) -> Option<
    (Seq<(Seq<char>, Seq<char>)>, Seq<char>),
>
    decreases s.len(),
    via parse_pairs_dec
{
    if s.len() == 0 {
        None
    } else if s[0] == '}' {
        Some((Seq::empty(), s.drop_first()))
    } else if s[0] == '"' {
        match unesc(s.drop_first()) {
            None => None,
            Some((k, r1)) => {
                if r1.len() >= 2 && r1[0] == ':' && r1[1] == '"' {
                    match unesc(r1.skip(2)) {
                        None => None,
                        Some((v, r2)) => {
                            if r2.len() >= 2 && r2[0] == ',' && r2[1] == '"' {
                                match parse_pairs(r2.drop_first()) {
                                    None => None,
                                    Some((ps, r3)) => Some((seq![(k, v)] + ps, r3)),
                                }
                            } else if r2.len() >= 1 && r2[0] == '}' {
                                Some((seq![(k, v)], r2.drop_first()))
                            } else {
                                None
                            }
                        },
                    }
                } else {
                    None
                }
            },
        }
    } else {
        None
    }
}

#[via_fn]
proof fn parse_pairs_dec(s: Seq<char>) {
    if s.len() != 0 && s[0] != '}' && s[0] == '"' {
        lemma_unesc_shorter(s.drop_first());
        if let Some((k, r1)) = unesc(s.drop_first()) {
            if r1.len() >= 2 && r1[0] == ':' && r1[1] == '"' {
                lemma_unesc_shorter(r1.skip(2));
            }
        }
    }
}

/// The entry list as written, followed by a closing brace, reads back as
/// the same entries in the same order.
pub proof fn lemma_pairs_round_trip(ps: Seq<(Seq<char>, Seq<char>)>, rest: Seq<char>)
    ensures
        parse_pairs(pairs_text(ps) + seq!['}'] + rest) == Some((ps, rest)),
    decreases ps.len(),
{
    let t = pairs_text(ps) + seq!['}'] + rest;
    if ps.len() == 0 {
        assert(t =~= seq!['}'] + rest);
        assert(t[0] == '}');
        assert(t.drop_first() =~= rest);
        assert(Seq::<(Seq<char>, Seq<char>)>::empty() =~= ps);
    } else {
        let k = ps[0].0;
        let v = ps[0].1;
        let tail_text: Seq<char> = if ps.len() == 1 {
            seq!['}'] + rest
        } else {
            seq![','] + (pairs_text(ps.drop_first()) + seq!['}'] + rest)
        };
        let mid: Seq<char> = seq!['"', ':', '"'];
        let after_key: Seq<char> = mid.skip(1) + esc(v) + seq!['"'] + tail_text;
        assert(t[0] == '"');
        assert(t.drop_first() =~= esc(k) + seq!['"'] + after_key);
        lemma_unesc_esc(k, after_key);
        assert(unesc(t.drop_first()) == Some((k, after_key)));
        assert(after_key.len() >= 2);
        assert(after_key[0] == ':' && after_key[1] == '"');
        let after_colon = after_key.skip(2);
        assert(after_colon =~= esc(v) + seq!['"'] + tail_text);
        lemma_unesc_esc(v, tail_text);
        assert(unesc(after_colon) == Some((v, tail_text)));
        if ps.len() == 1 {
            assert(tail_text[0] == '}');
            assert(!(tail_text[0] == ','));
            assert(tail_text.drop_first() =~= rest);
            assert(seq![(k, v)] =~= ps);
        } else {
            let drop = ps.drop_first();
            assert(drop.len() >= 1);
            assert(pairs_text(drop).len() >= 1) by {
                assert(entry_text(drop[0]).len() >= 5);
            }
            assert(tail_text[0] == ',');
            assert(tail_text[1] == entry_text(drop[0])[0]);
            assert(entry_text(drop[0])[0] == '"');
            assert(tail_text.len() >= 2);
            lemma_pairs_round_trip(drop, rest);
            assert(tail_text.drop_first() =~= pairs_text(drop) + seq!['}'] + rest);
            assert(parse_pairs(tail_text.drop_first()) == Some((drop, rest)));
            assert(seq![(k, v)] + drop =~= ps);
        }
    }
}

/// The whole payload for an identifier and its entries.
pub open spec fn payload_text(id: Seq<u8>, ps: Seq<(Seq<char>, Seq<char>)>) -> Seq<char> {
    id_prefix() + uuid_text(id) + data_prefix() + pairs_text(ps) + seq!['}', '}']
}

/// Reads a whole payload; `None` on any text the writer cannot have
/// produced from a 16-byte identifier and an entry list.
pub open spec fn parse_payload(t: Seq<char>) -> Option<
    (Seq<u8>, Seq<(Seq<char>, Seq<char>)>),
> {
    if t.len() >= 53 && t.subrange(0, 7) == id_prefix() && t.subrange(43, 53) == data_prefix() {
        match parse_uuid(t.subrange(7, 43)) {
            None => None,
            Some(id) => match parse_pairs(t.skip(53)) {
                None => None,
                Some((ps, r)) => if r == seq!['}'] {
                    Some((id, ps))
                } else {
                    None
                },
            },
        }
    } else {
        None
    }
}

/// The round trip of the payload: what the writer produces for any
/// identifier and any entry list, the reader maps back to exactly that
/// identifier and that entry list.
pub proof fn lemma_payload_round_trip(id: Seq<u8>, ps: Seq<(Seq<char>, Seq<char>)>)
    requires
        id.len() == 16,
    ensures
        parse_payload(payload_text(id, ps)) == Some((id, ps)),
{
    let t = payload_text(id, ps);
    lemma_uuid_text_len(id);
    lemma_uuid_round_trip(id);
    assert(t.len() >= 53);
    assert(t.subrange(0, 7) =~= id_prefix());
    assert(t.subrange(7, 43) =~= uuid_text(id));
    assert(t.subrange(43, 53) =~= data_prefix());
    assert(t.skip(53) =~= pairs_text(ps) + seq!['}'] + seq!['}']);
    lemma_pairs_round_trip(ps, seq!['}']);
    assert(parse_pairs(t.skip(53)) == Some((ps, seq!['}'])));
}

/// A payload that reads successfully always carries a 16-byte identifier.
pub proof fn lemma_parse_payload_id_len(t: Seq<char>)
    ensures
        parse_payload(t) matches Some((id, ps)) ==> id.len() == 16,
{
    if t.len() >= 53 && t.subrange(0, 7) == id_prefix() && t.subrange(43, 53) == data_prefix() {
        let u = t.subrange(7, 43);
        lemma_parse_hex_bytes_len(u.subrange(0, 8));
        lemma_parse_hex_bytes_len(u.subrange(9, 13));
        lemma_parse_hex_bytes_len(u.subrange(14, 18));
        lemma_parse_hex_bytes_len(u.subrange(19, 23));
        lemma_parse_hex_bytes_len(u.subrange(24, 36));
    }
}

/// The entries of a key-value list as character sequences, in order.
pub open spec fn pairs_view(es: Seq<(String, String)>) -> Seq<(Seq<char>, Seq<char>)> {
    es.map_values(|p: (String, String)| (p.0@, p.1@))
}

/// Appends the hexadecimal text of `bs[i..j]` to `out`.
fn hex_append(out: &mut Vec<char>, bs: &Vec<u8>, i: usize, j: usize)
    requires
        i <= j && j <= bs.len(),
    ensures
        final(out)@ == old(out)@ + bytes_hex(bs@.subrange(i as int, j as int)),
    decreases j - i,
{
    let ghost base = out@;
    if i < j {
        let b = bs[i];
        out.push(hex_char_exec(b / 16));
        out.push(hex_char_exec(b % 16));
        proof {
            assert((b / 16) as int == (b as int) / 16);
            assert((b % 16) as int == (b as int) % 16);
            assert(out@ =~= base + byte_hex(bs@[i as int]));
        }
        hex_append(out, bs, i + 1, j);
        proof {
            let sub = bs@.subrange(i as int, j as int);
            assert(sub[0] == bs@[i as int]);
            assert(sub.drop_first() =~= bs@.subrange(i as int + 1, j as int));
            assert(base + bytes_hex(sub) =~= (base + byte_hex(bs@[i as int])) + bytes_hex(
                bs@.subrange(i as int + 1, j as int),
            ));
        }
    } else {
        proof {
            assert(bs@.subrange(i as int, j as int) =~= Seq::<u8>::empty());
            assert(base + bytes_hex(bs@.subrange(i as int, j as int)) =~= base);
        }
    }
}

/// Appends the canonical identifier text of the 16 bytes to `out`.
pub(crate) fn uuid_append(out: &mut Vec<char>, b: &Vec<u8>)
    requires
        b@.len() == 16,
    ensures
        final(out)@ == old(out)@ + uuid_text(b@),
{
    let ghost base = out@;
    hex_append(out, b, 0, 4);
    out.push('-');
    hex_append(out, b, 4, 6);
    out.push('-');
    hex_append(out, b, 6, 8);
    out.push('-');
    hex_append(out, b, 8, 10);
    out.push('-');
    hex_append(out, b, 10, 16);
    proof {
        assert(out@ =~= base + uuid_text(b@));
    }
}

/// Appends the text of the entries `entries[i..]` to `out`.
fn pairs_append(out: &mut Vec<char>, entries: &Vec<(String, String)>, i: usize)
    requires
        i <= entries.len(),
    ensures
        final(out)@ == old(out)@ + pairs_text(pairs_view(entries@).skip(i as int)),
    decreases entries.len() - i,
{
    let ghost base = out@;
    let ghost pv = pairs_view(entries@);
    if i < entries.len() {
        out.push('"');
        let kc = str_chars(entries[i].0.as_str());
        esc_append(out, &kc, 0);
        out.push('"');
        out.push(':');
        out.push('"');
        let vc = str_chars(entries[i].1.as_str());
        esc_append(out, &vc, 0);
        out.push('"');
        proof {
            assert(kc@.skip(0) =~= kc@);
            assert(vc@.skip(0) =~= vc@);
            assert(pv[i as int] == (entries@[i as int].0@, entries@[i as int].1@));
            assert(out@ =~= base + entry_text(pv[i as int]));
        }
        if i + 1 < entries.len() {
            out.push(',');
            pairs_append(out, entries, i + 1);
            proof {
                let suf = pv.skip(i as int);
                assert(suf.len() >= 2);
                assert(suf[0] == pv[i as int]);
                assert(suf.drop_first() =~= pv.skip(i as int + 1));
                assert(base + pairs_text(suf) =~= ((base + entry_text(pv[i as int])) + seq![','])
                    + pairs_text(pv.skip(i as int + 1)));
            }
        } else {
            proof {
                let suf = pv.skip(i as int);
                assert(suf.len() == 1);
                assert(suf[0] == pv[i as int]);
                assert(base + pairs_text(suf) =~= base + entry_text(pv[i as int]));
            }
        }
    } else {
        proof {
            assert(pv.skip(i as int) =~= Seq::<(Seq<char>, Seq<char>)>::empty());
            assert(base + pairs_text(pv.skip(i as int)) =~= base);
        }
    }
}

/// Writes the whole payload for an identifier and an entry list.
pub fn payload_string(id_bytes: &Vec<u8>, entries: &Vec<(String, String)>) -> (r: String)
    requires
        id_bytes@.len() == 16,
    ensures
        r@ == payload_text(id_bytes@, pairs_view(entries@)),
{
    let mut out: Vec<char> = Vec::new();
    out.push('{');
    out.push('"');
    out.push('i');
    out.push('d');
    out.push('"');
    out.push(':');
    out.push('"');
    proof {
        assert(out@ =~= id_prefix());
    }
    uuid_append(&mut out, id_bytes);
    out.push('"');
    out.push(',');
    out.push('"');
    out.push('d');
    out.push('a');
    out.push('t');
    out.push('a');
    out.push('"');
    out.push(':');
    out.push('{');
    proof {
        assert(out@ =~= (id_prefix() + uuid_text(id_bytes@)) + data_prefix());
    }
    pairs_append(&mut out, entries, 0);
    out.push('}');
    out.push('}');
    proof {
        assert(pairs_view(entries@).skip(0) =~= pairs_view(entries@));
        assert(out@ =~= payload_text(id_bytes@, pairs_view(entries@)));
    }
    chars_string(&out)
}

/// Reads hexadecimal digits in `s[i..j]` as bytes, as `parse_hex_bytes`
/// does on that range.
fn hex_range(s: &Vec<char>, i: usize, j: usize) -> (r: Option<Vec<u8>>)
    requires
        i <= j && j <= s.len(),
    ensures
        match parse_hex_bytes(s@.subrange(i as int, j as int)) {
            Some(bs) => r matches Some(v) && v@ == bs,
            None => r is None,
        },
    decreases j - i,
{
    let ghost sub = s@.subrange(i as int, j as int);
    if i == j {
        proof {
            assert(sub =~= Seq::<char>::empty());
        }
        let v: Vec<u8> = Vec::new();
        proof {
            assert(v@ =~= Seq::<u8>::empty());
        }
        Some(v)
    } else if j - i == 1 {
        None
    } else {
        proof {
            assert(sub[0] == s@[i as int]);
            assert(sub[1] == s@[i as int + 1]);
            assert(sub.skip(2) =~= s@.subrange(i as int + 2, j as int));
        }
        let h = hex_val_exec(s[i]);
        let l = hex_val_exec(s[i + 1]);
        if h < 16 && l < 16 {
            match hex_range(s, i + 2, j) {
                None => None,
                Some(mut v) => {
                    let ghost tail = v@;
                    let b = h * 16 + l;
                    v.insert(0, b);
                    proof {
                        assert(b as int == hex_val(sub[0]) * 16 + hex_val(sub[1]));
                        assert(v@ =~= seq![(hex_val(sub[0]) * 16 + hex_val(sub[1])) as u8] + tail);
                    }
                    Some(v)
                },
            }
        } else {
            None
        }
    }
}

/// Reads the identifier text standing at positions 7 to 43, as
/// `parse_uuid` does on that range.
fn parse_uuid_at(v: &Vec<char>) -> (r: Option<Vec<u8>>)
    requires
        v.len() >= 43,
    ensures
        match parse_uuid(v@.subrange(7, 43)) {
            Some(b) => r matches Some(bv) && bv@ == b,
            None => r is None,
        },
{
    let ghost u = v@.subrange(7, 43);
    proof {
        assert(u.len() == 36);
        assert(u[8] == v@[15]);
        assert(u[13] == v@[20]);
        assert(u[18] == v@[25]);
        assert(u[23] == v@[30]);
    }
    if !(v[15] == '-' && v[20] == '-' && v[25] == '-' && v[30] == '-') {
        return None;
    }
    proof {
        assert(u.subrange(0, 8) =~= v@.subrange(7, 15));
        assert(u.subrange(9, 13) =~= v@.subrange(16, 20));
        assert(u.subrange(14, 18) =~= v@.subrange(21, 25));
        assert(u.subrange(19, 23) =~= v@.subrange(26, 30));
        assert(u.subrange(24, 36) =~= v@.subrange(31, 43));
    }
    let g1 = hex_range(v, 7, 15);
    let g2 = hex_range(v, 16, 20);
    let g3 = hex_range(v, 21, 25);
    let g4 = hex_range(v, 26, 30);
    let g5 = hex_range(v, 31, 43);
    match (g1, g2, g3, g4, g5) {
        (Some(mut b1), Some(mut b2), Some(mut b3), Some(mut b4), Some(mut b5)) => {
            b1.append(&mut b2);
            b1.append(&mut b3);
            b1.append(&mut b4);
            b1.append(&mut b5);
            Some(b1)
        },
        _ => None,
    }
}

/// Reads the entry list in `s` from position `i`, as `parse_pairs` does
/// on the suffix, handing the entries back as strings.
fn parse_pairs_exec(s: &Vec<char>, i: usize) -> (r: Option<(Vec<(String, String)>, usize)>)
    requires
        i <= s.len(),
    ensures
        match parse_pairs(s@.skip(i as int)) {
            Some((ps, rest)) => (r matches Some((ev, j)) && pairs_view(ev@) == ps && i < j
                <= s.len() && s@.skip(j as int) == rest),
            None => r is None,
        },
    decreases s.len() - i,
{
    let ghost sp = s@.skip(i as int);
    if i == s.len() {
        proof {
            assert(sp =~= Seq::<char>::empty());
        }
        return None;
    }
    proof {
        assert(sp.len() == s.len() - i);
        assert(sp[0] == s@[i as int]);
    }
    let c = s[i];
    if c == '}' {
        let ev: Vec<(String, String)> = Vec::new();
        proof {
            assert(sp.drop_first() =~= s@.skip(i as int + 1));
            assert(pairs_view(ev@) =~= Seq::<(Seq<char>, Seq<char>)>::empty());
        }
        Some((ev, i + 1))
    } else if c == '"' {
        proof {
            assert(sp.drop_first() =~= s@.skip(i as int + 1));
        }
        match unesc_exec(s, i + 1) {
            None => None,
            Some((kc, j1)) => {
                let ghost r1 = s@.skip(j1 as int);
                if s.len() - j1 >= 2 && s[j1] == ':' && s[j1 + 1] == '"' {
                    proof {
                        assert(r1[0] == s@[j1 as int]);
                        assert(r1[1] == s@[j1 as int + 1]);
                        assert(r1.skip(2) =~= s@.skip(j1 as int + 2));
                    }
                    match unesc_exec(s, j1 + 2) {
                        None => None,
                        Some((vc, j2)) => {
                            let ghost r2 = s@.skip(j2 as int);
                            let key = chars_string(&kc);
                            let val = chars_string(&vc);
                            if s.len() - j2 >= 2 && s[j2] == ',' && s[j2 + 1] == '"' {
                                proof {
                                    assert(r2[0] == s@[j2 as int]);
                                    assert(r2[1] == s@[j2 as int + 1]);
                                    assert(r2.drop_first() =~= s@.skip(j2 as int + 1));
                                }
                                match parse_pairs_exec(s, j2 + 1) {
                                    None => None,
                                    Some((mut ev, j3)) => {
                                        let ghost tail = ev@;
                                        ev.insert(0, (key, val));
                                        proof {
                                            assert(pairs_view(ev@) =~= seq![(kc@, vc@)]
                                                + pairs_view(tail));
                                        }
                                        Some((ev, j3))
                                    },
                                }
                            } else if s.len() - j2 >= 1 && s[j2] == '}' {
                                proof {
                                    assert(r2[0] == s@[j2 as int]);
                                    assert(r2.drop_first() =~= s@.skip(j2 as int + 1));
                                }
                                let mut ev: Vec<(String, String)> = Vec::new();
                                ev.push((key, val));
                                proof {
                                    assert(pairs_view(ev@) =~= seq![(kc@, vc@)]);
                                }
                                Some((ev, j2 + 1))
                            } else {
                                None
                            }
                        },
                    }
                } else {
                    None
                }
            },
        }
    } else {
        None
    }
}

/// Whether the payload opening stands at the start of `v`.
fn has_id_prefix(v: &Vec<char>) -> (r: bool)
    requires
        v.len() >= 7,
    ensures
        r <==> v@.subrange(0, 7) == id_prefix(),
{
    let r = v[0] == '{' && v[1] == '"' && v[2] == 'i' && v[3] == 'd' && v[4] == '"' && v[5] == ':'
        && v[6] == '"';
    proof {
        let sub = v@.subrange(0, 7);
        if r {
            assert(sub =~= id_prefix());
        } else {
            if sub == id_prefix() {
                assert(v@[0] == sub[0] && v@[1] == sub[1] && v@[2] == sub[2] && v@[3] == sub[3]
                    && v@[4] == sub[4] && v@[5] == sub[5] && v@[6] == sub[6]);
            }
        }
    }
    r
}

/// Whether the `data` opening stands at positions 43 to 53 of `v`.
fn has_data_prefix(v: &Vec<char>) -> (r: bool)
    requires
        v.len() >= 53,
    ensures
        r <==> v@.subrange(43, 53) == data_prefix(),
{
    let r = v[43] == '"' && v[44] == ',' && v[45] == '"' && v[46] == 'd' && v[47] == 'a' && v[48]
        == 't' && v[49] == 'a' && v[50] == '"' && v[51] == ':' && v[52] == '{';
    proof {
        let sub = v@.subrange(43, 53);
        if r {
            assert(sub =~= data_prefix());
        } else {
            if sub == data_prefix() {
                assert(v@[43] == sub[0] && v@[44] == sub[1] && v@[45] == sub[2] && v@[46] == sub[3]
                    && v@[47] == sub[4] && v@[48] == sub[5] && v@[49] == sub[6] && v@[50] == sub[7]
                    && v@[51] == sub[8] && v@[52] == sub[9]);
            }
        }
    }
    r
}

/// Reads a whole payload, as `parse_payload` does on the text's characters.
pub fn payload_parse(t: &str) -> (r: Option<(Vec<u8>, Vec<(String, String)>)>)
    ensures
        match parse_payload(t@) {
            Some((id, ps)) => (r matches Some((bv, ev)) && bv@ == id && pairs_view(ev@) == ps),
            None => r is None,
        },
{
    let v = str_chars(t);
    if v.len() < 53 {
        return None;
    }
    if !has_id_prefix(&v) {
        return None;
    }
    if !has_data_prefix(&v) {
        return None;
    }
    let id = match parse_uuid_at(&v) {
        None => {
            return None;
        },
        Some(id) => id,
    };
    match parse_pairs_exec(&v, 53) {
        None => None,
        Some((ev, j)) => {
            let ghost rest = t@.skip(j as int);
            if v.len() - j == 1 && v[j] == '}' {
                proof {
                    assert(rest =~= seq!['}']);
                }
                Some((id, ev))
            } else {
                proof {
                    if rest == seq!['}'] {
                        assert(rest.len() == 1);
                        assert(t@[j as int] == rest[0]);
                    }
                }
                None
            }
        },
    }
}

} // verus!
