//! Properties that relate the codec's pieces: what every non-marker buffer
//! decodes to, what an empty response decodes to, and when encoding followed
//! by decoding reproduces a rule list.

use crate::codec::decode_spec;
use crate::codec::encode_spec;
use crate::codec::encoded_entries;
use crate::codec::is_carrier_spec;
use crate::codec::mod_bytes_of;
use crate::codec::num_mod_rules_of;
use crate::codec::num_mods_of;
use crate::codec::parse_mods_from;
use crate::codec::regular_name;
use crate::codec::regular_value;
use crate::codec::regular_view;
use crate::codec::regulars_of;
use crate::codec::rule_bytes_spec;
use crate::codec::rules_bytes_spec;
use crate::codec::Error;
use crate::codec::RuleView;
use crate::codec::RESPONSE_MARKER;
use crate::escape::escape_free;
use crate::escape::lemma_unescape_escape_free;
use crate::wire::lemma_read_cstr_of_encoded;
use crate::wire::read_entries_spec;
use crate::wire::u16_le_at;
use crate::wire::u16_le_bytes;
use vstd::arithmetic::div_mod::lemma_fundamental_div_mod;
use vstd::prelude::*;
use vstd::utf8::encode_utf8;
use vstd::utf8::encode_utf8_decode_utf8;
use vstd::utf8::encode_utf8_valid_utf8;

verus! {

/// A byte sequence without the null terminator byte.
pub open spec fn null_free(s: Seq<u8>) -> bool {
    forall|k: int| 0 <= k < s.len() ==> #[trigger] s[k] != 0
}

/// A rule that survives the encode/decode round trip: a regular rule whose
/// name and value bytes hold no terminator, whose value bytes are left alone
/// by unescaping (the encoder applies no escape stuffing, the decoder always
/// unescapes), and whose name bytes do not have the two-byte carrier shape.
pub open spec fn round_trip_rule_ok(r: RuleView) -> bool {
    &&& r is Regular
    &&& null_free(encode_utf8(regular_name(r)))
    &&& encode_utf8(regular_name(r)).len() != 2
    &&& null_free(encode_utf8(regular_value(r)))
    &&& escape_free(encode_utf8(regular_value(r)))
}

/// A rule list that survives the encode/decode round trip: every rule
/// qualifies on its own, the list fits the 16-bit count field, and the first
/// value does not make the decoder expect mod records (the decoder reads the
/// expected mod count from byte offset 4 of the first entry's value,
/// whether or not any carrier entry exists).
pub open spec fn round_trip_ok(rules: Seq<RuleView>) -> bool {
    &&& rules.len() <= 0xFFFF
    &&& forall|i: int| 0 <= i < rules.len() ==> round_trip_rule_ok(#[trigger] rules[i])
    &&& rules.len() > 0 ==> (encode_utf8(regular_value(rules[0])).len() <= 4 || encode_utf8(
        regular_value(rules[0]),
    )[4] == 0)
}

/// A buffer that does not open with the marker byte never decodes: the
/// decoder fails with [`Error::InvalidResponse`], whatever follows.
pub proof fn lemma_invalid_marker(d: Seq<u8>)
    requires
        d.len() >= 1,
        d[0] != RESPONSE_MARKER,
    ensures
        decode_spec(d) == Err::<Seq<RuleView>, Error>(Error::InvalidResponse),
{
}

/// A response with the marker byte and a zero entry count decodes to the
/// empty rule list, whatever trailing bytes follow the count.
pub proof fn lemma_zero_count(d: Seq<u8>)
    requires
        d.len() >= 3,
        d[0] == RESPONSE_MARKER,
        d[1] == 0,
        d[2] == 0,
    ensures
        decode_spec(d) == Ok::<Seq<RuleView>, Error>(Seq::<RuleView>::empty()),
{
    assert(u16_le_at(d, 1) == 0);
    let es = Seq::<(Seq<u8>, Seq<u8>)>::empty();
    assert(read_entries_spec(d, 3, 0) == Some((es, 3int)));
    assert(num_mods_of(es) == 0);
    assert(parse_mods_from(mod_bytes_of(es, num_mod_rules_of(es)), 5, 0) == Some(
        Seq::<RuleView>::empty(),
    ));
    assert(regulars_of(es, num_mod_rules_of(es)) + Seq::<RuleView>::empty()
        =~= Seq::<RuleView>::empty());
}

/// The encoded bytes of a qualifying rule list, laid down at offset `i` of a
/// larger buffer, read back as exactly one name/value entry per rule.
proof fn lemma_read_encoded_entries(d: Seq<u8>, i: int, rules: Seq<RuleView>)
    requires
        0 <= i,
        i + rules_bytes_spec(rules).len() <= d.len(),
        d.subrange(i, i + rules_bytes_spec(rules).len() as int) == rules_bytes_spec(rules),
        forall|k: int| 0 <= k < rules.len() ==> round_trip_rule_ok(#[trigger] rules[k]),
    ensures
        read_entries_spec(d, i, rules.len()) == Some(
            (encoded_entries(rules), i + rules_bytes_spec(rules).len()),
        ),
    decreases rules.len(),
{
    let bs = rules_bytes_spec(rules);
    if rules.len() == 0 {
        assert(encoded_entries(rules) =~= Seq::<(Seq<u8>, Seq<u8>)>::empty());
        assert(bs.len() == 0);
    } else {
        let r = rules.first();
        assert(round_trip_rule_ok(rules[0]));
        let nb = encode_utf8(regular_name(r));
        let vb = encode_utf8(regular_value(r));
        let rb = rule_bytes_spec(r);
        assert(rb =~= nb + seq![0u8] + vb + seq![0u8]);
        assert(bs == rb + rules_bytes_spec(rules.drop_first()));
        let rest_bs = rules_bytes_spec(rules.drop_first());
        assert(forall|k: int| 0 <= k < bs.len() ==> #[trigger] d[i + k] == bs[k]) by {
            assert(forall|k: int|
                0 <= k < bs.len() ==> #[trigger] d[i + k] == d.subrange(
                    i,
                    i + bs.len() as int,
                )[k]);
        }
        // the name and its terminator
        assert(d.subrange(i, i + nb.len() as int) =~= nb);
        assert(d[i + nb.len() as int] == bs[nb.len() as int]);
        assert(bs[nb.len() as int] == 0);
        lemma_read_cstr_of_encoded(d, i, nb);
        let j = i + nb.len() + 1;
        // the value and its terminator
        assert forall|k: int| 0 <= k < vb.len() implies d.subrange(j, j + vb.len() as int)[k]
            == vb[k] by {
            let m = nb.len() + 1 + k;
            assert(bs[m] == vb[k]);
            assert(d.subrange(i, i + bs.len() as int)[m] == d[i + m]);
            assert(d[j + k] == bs[m]);
        }
        assert(d.subrange(j, j + vb.len() as int) =~= vb);
        let term = nb.len() + 1 + vb.len() as int;
        assert(bs[term] == 0);
        assert(d.subrange(i, i + bs.len() as int)[term] == d[i + term]);
        assert(d[j + vb.len() as int] == bs[term]);
        lemma_read_cstr_of_encoded(d, j, vb);
        let k = j + vb.len() + 1;
        assert(k == i + rb.len());
        // the remaining rules
        assert forall|m: int| 0 <= m < rest_bs.len() implies d.subrange(
            k,
            k + rest_bs.len() as int,
        )[m] == rest_bs[m] by {
            let t = rb.len() + m;
            assert(bs[t] == rest_bs[m]);
            assert(d.subrange(i, i + bs.len() as int)[t] == d[i + t]);
            assert(d[k + m] == bs[t]);
        }
        assert(d.subrange(k, k + rest_bs.len() as int) =~= rest_bs);
        assert(forall|m: int|
            0 <= m < rules.drop_first().len() ==> round_trip_rule_ok(
                #[trigger] rules.drop_first()[m],
            ));
        lemma_read_encoded_entries(d, k, rules.drop_first());
        assert(seq![(nb, vb)] + encoded_entries(rules.drop_first()) =~= encoded_entries(rules));
        assert(k + rest_bs.len() == i + bs.len());
    }
}

/// Over the entries of a qualifying encoded list, the carrier heuristic
/// claims nothing: every entry decodes back to its regular rule and the
/// reassembled mod-table buffer stays empty.
proof fn lemma_classify_encoded(rules: Seq<RuleView>, nmr: u8)
    requires
        forall|k: int| 0 <= k < rules.len() ==> round_trip_rule_ok(#[trigger] rules[k]),
    ensures
        regulars_of(encoded_entries(rules), nmr) == rules,
        mod_bytes_of(encoded_entries(rules), nmr) == Seq::<u8>::empty(),
    decreases rules.len(),
{
    broadcast use encode_utf8_valid_utf8;
    broadcast use encode_utf8_decode_utf8;

    let es = encoded_entries(rules);
    if rules.len() == 0 {
        assert(es =~= Seq::<(Seq<u8>, Seq<u8>)>::empty());
        assert(regulars_of(es, nmr) =~= rules);
    } else {
        let prefix = rules.drop_last();
        assert(forall|k: int|
            0 <= k < prefix.len() ==> round_trip_rule_ok(#[trigger] prefix[k]));
        lemma_classify_encoded(prefix, nmr);
        assert(es.drop_last() =~= encoded_entries(prefix));
        let r = rules.last();
        assert(round_trip_rule_ok(rules[rules.len() - 1]));
        let nb = encode_utf8(regular_name(r));
        let vb = encode_utf8(regular_value(r));
        assert(es.last() == (nb, vb));
        assert(!is_carrier_spec(nb, nmr));
        lemma_unescape_escape_free(vb);
        assert(regular_view((nb, vb)) == r);
        assert(regulars_of(es, nmr) =~= rules);
    }
}

/// Encoding a list of regular rules and decoding the bytes reproduces the
/// list exactly. The conditions of [`round_trip_ok`] are what the encoder's
/// one-directional design demands: it applies no escape stuffing and no
/// carrier disguise, and the decoder reads its mod count from the first
/// entry unconditionally.
pub proof fn lemma_regular_round_trip(rules: Seq<RuleView>)
    requires
        round_trip_ok(rules),
    ensures
        decode_spec(encode_spec(rules)) == Ok::<Seq<RuleView>, Error>(rules),
{
    broadcast use encode_utf8_valid_utf8;

    let d = encode_spec(rules);
    let cnt = (rules.len() % 0x10000) as u16;
    let header = seq![RESPONSE_MARKER] + u16_le_bytes(cnt);
    let bs = rules_bytes_spec(rules);
    assert(rules.len() % 0x10000 == rules.len());
    assert(d == header + bs);
    assert(header.len() == 3);
    assert(d[0] == RESPONSE_MARKER);
    assert(d[1] == u16_le_bytes(cnt)[0]);
    assert(d[2] == u16_le_bytes(cnt)[1]);
    assert(u16_le_at(d, 1) == ((cnt % 256) + (cnt / 256) * 256) as u16);
    lemma_fundamental_div_mod(cnt as int, 256);
    assert(u16_le_at(d, 1) == cnt);
    // the entries read back one to one
    assert(d.subrange(3, 3 + bs.len() as int) =~= bs);
    lemma_read_encoded_entries(d, 3, rules);
    let es = encoded_entries(rules);
    assert(read_entries_spec(d, 3, rules.len()) == Some((es, 3 + bs.len() as int)));
    // no mod records are expected
    if rules.len() > 0 {
        let vb0 = encode_utf8(regular_value(rules[0]));
        assert(round_trip_rule_ok(rules[0]));
        assert(es[0].1 == vb0);
        lemma_unescape_escape_free(vb0);
        assert(num_mods_of(es) == 0);
    } else {
        assert(es =~= Seq::<(Seq<u8>, Seq<u8>)>::empty());
        assert(num_mods_of(es) == 0);
    }
    // classification returns every rule and gathers nothing
    let nmr = num_mod_rules_of(es);
    lemma_classify_encoded(rules, nmr);
    assert(parse_mods_from(mod_bytes_of(es, nmr), 5, 0) == Some(Seq::<RuleView>::empty()));
    assert(regulars_of(es, nmr) + Seq::<RuleView>::empty() =~= rules);
}

} // verus!
