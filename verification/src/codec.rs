//! Decoding and encoding of rules responses.
//!
//! A response carries a marker byte, a little-endian entry count, and that
//! many name/value entries. A server with a mod table smuggles it through the
//! list: fragments of the byte-stuffed table travel as the values of
//! disguised "carrier" entries, recognised by a two-byte name that encodes a
//! (sequence index, fragment total) pair. The decoder reassembles those
//! fragments and parses the hidden table; everything else is reported as a
//! regular rule.

use crate::escape::unescape;
use crate::escape::unescape_spec;
use crate::text::lossy_decode;
use crate::text::lossy_string;
use crate::wire::entries_view;
use crate::wire::read_entries;
use crate::wire::read_entries_spec;
use crate::wire::u16_le_at;
use crate::wire::u16_le_bytes;
use crate::wire::u32_le_at;
use crate::wire::u32_le_bytes;
use crate::wire::RawEntry;
use vstd::prelude::*;
use vstd::string::StrSliceExecFns;
use vstd::utf8::encode_utf8;

verus! {

/// The marker byte that opens every rules response.
pub const RESPONSE_MARKER: u8 = 0x45;

/// Why a buffer failed to decode: it is not a rules response at all, or a
/// read ran past the end of the available bytes.
#[derive(Debug, Clone, Copy, PartialEq, Eq, Structural)]
pub enum Error {
    InvalidResponse,
    Truncated,
}

/// One rule of a decoded response: an ordinary configuration variable, or an
/// installed modification reconstructed from the hidden mod table.
#[derive(Debug, Clone, PartialEq)]
pub enum Rule {
    Regular { name: String, value: String },
    Mod { id: u32, name: String },
}

/// The mathematical value of a [`Rule`]: its text fields as character
/// sequences.
pub enum RuleView {
    Regular { name: Seq<char>, value: Seq<char> },
    Mod { id: u32, name: Seq<char> },
}

impl View for Rule {
    type V = RuleView;

    open spec fn view(&self) -> RuleView {
        match self {
            Rule::Regular { name, value } => RuleView::Regular { name: name@, value: value@ },
            Rule::Mod { id, name } => RuleView::Mod { id: *id, name: name@ },
        }
    }
}

/// The views of a sequence of rules.
pub open spec fn rules_view(rs: Seq<Rule>) -> Seq<RuleView> {
    rs.map_values(|r: Rule| r@)
}

/// The name characters of a rule, whichever variant it is.
pub open spec fn regular_name(r: RuleView) -> Seq<char> {
    match r {
        RuleView::Regular { name, value: _ } => name,
        RuleView::Mod { id: _, name } => name,
    }
}

/// The value characters of a regular rule; a mod record has none.
pub open spec fn regular_value(r: RuleView) -> Seq<char> {
    match r {
        RuleView::Regular { name: _, value } => value,
        RuleView::Mod { id: _, name: _ } => Seq::empty(),
    }
}

/// The wire entries that a sequence of encoded regular rules reads back as:
/// one (name bytes, value bytes) pair per rule.
pub open spec fn encoded_entries(rules: Seq<RuleView>) -> Seq<(Seq<u8>, Seq<u8>)> {
    rules.map_values(
        |r: RuleView| (encode_utf8(regular_name(r)), encode_utf8(regular_value(r))),
    )
}

/// Whether an entry with this name is a disguised fragment of the mod table:
/// the name is exactly two bytes, read as a (sequence index, fragment total)
/// pair whose total equals `num_mod_rules` and whose index stays within it.
pub open spec fn is_carrier_spec(name: Seq<u8>, num_mod_rules: u8) -> bool {
    name.len() == 2 && name[1] == num_mod_rules && name[0] <= num_mod_rules
}

/// Decides whether an entry is a mod-table carrier rather than a genuine
/// rule. Pure and total; true exactly for two-byte names whose second byte
/// equals `num_mod_rules` and whose first byte does not exceed it.
pub fn is_carrier(name: &Vec<u8>, num_mod_rules: u8) -> (r: bool)
    ensures
        r == is_carrier_spec(name@, num_mod_rules),
{
    name.len() == 2 && name[1] == num_mod_rules && name[0] <= num_mod_rules
}

/// The expected number of mod records, read from byte offset 4 of the first
/// entry's unescaped value; 0 when there is no such byte.
pub open spec fn num_mods_of(es: Seq<(Seq<u8>, Seq<u8>)>) -> u8 {
    if es.len() == 0 {
        0
    } else {
        let v = unescape_spec(es[0].1);
        if v.len() > 4 {
            v[4]
        } else {
            0
        }
    }
}

/// The expected number of carrier entries, read from byte offset 1 of the
/// first entry's name; 0 when there is no such byte.
pub open spec fn num_mod_rules_of(es: Seq<(Seq<u8>, Seq<u8>)>) -> u8 {
    if es.len() == 0 {
        0
    } else if es[0].0.len() > 1 {
        es[0].0[1]
    } else {
        0
    }
}

/// The regular rule that a non-carrier entry decodes to: both fields are read
/// as text, the value after unescaping.
pub open spec fn regular_view(e: (Seq<u8>, Seq<u8>)) -> RuleView {
    RuleView::Regular { name: lossy_decode(e.0), value: lossy_decode(unescape_spec(e.1)) }
}

/// The regular rules among the entries, in arrival order: every entry that
/// the carrier heuristic does not claim.
pub open spec fn regulars_of(es: Seq<(Seq<u8>, Seq<u8>)>, num_mod_rules: u8) -> Seq<RuleView>
    decreases es.len(),
{
    if es.len() == 0 {
        Seq::empty()
    } else {
        let rest = regulars_of(es.drop_last(), num_mod_rules);
        if is_carrier_spec(es.last().0, num_mod_rules) {
            rest
        } else {
            rest.push(regular_view(es.last()))
        }
    }
}

/// The reassembled mod-table buffer: the unescaped values of the carrier
/// entries, concatenated in arrival order.
pub open spec fn mod_bytes_of(es: Seq<(Seq<u8>, Seq<u8>)>, num_mod_rules: u8) -> Seq<u8>
    decreases es.len(),
{
    if es.len() == 0 {
        Seq::empty()
    } else {
        let rest = mod_bytes_of(es.drop_last(), num_mod_rules);
        if is_carrier_spec(es.last().0, num_mod_rules) {
            rest + unescape_spec(es.last().1)
        } else {
            rest
        }
    }
}

/// `n` mod records read from the reassembled buffer starting at offset
/// `pos`: each record is 5 skipped bytes, a 32-bit little-endian id, a
/// length byte, and that many name bytes. `None` when a read runs past the
/// end of the buffer; the skips themselves never fail.
pub open spec fn parse_mods_from(b: Seq<u8>, pos: int, n: nat) -> Option<Seq<RuleView>>
    decreases n,
{
    if n == 0 {
        Some(Seq::empty())
    } else {
        let p = pos + 5;
        if p + 5 > b.len() {
            None
        } else {
            let id = u32_le_at(b, p);
            let name_len = b[p + 4];
            if p + 5 + name_len > b.len() {
                None
            } else {
                match parse_mods_from(b, p + 5 + name_len, (n - 1) as nat) {
                    None => None,
                    Some(rest) => Some(
                        seq![
                            RuleView::Mod {
                                id,
                                name: lossy_decode(b.subrange(p + 5, p + 5 + name_len)),
                            },
                        ] + rest,
                    ),
                }
            }
        }
    }
}

/// Parses the reassembled mod-table buffer: skips the 5-byte sub-header,
/// then reads exactly `num_mods` records. Fails with [`Error::Truncated`]
/// when any id, length byte or name runs past the end of the buffer.
pub fn parse_mods(bytes: &Vec<u8>, num_mods: u8) -> (r: Result<Vec<Rule>, Error>)
    ensures
        r is Ok <==> parse_mods_from(bytes@, 5, num_mods as nat) is Some,
        r matches Ok(v) ==> parse_mods_from(bytes@, 5, num_mods as nat) == Some(rules_view(v@)),
        r matches Err(e) ==> e == Error::Truncated,
{
    let mut out: Vec<Rule> = Vec::new();
    let mut pos: usize = 5;
    let mut t: u8 = 0;
    proof {
        assert(rules_view(out@) =~= Seq::<RuleView>::empty());
    }
    while t < num_mods
        invariant
            t <= num_mods,
            t > 0 ==> pos <= bytes@.len(),
            t == 0 ==> pos == 5,
            parse_mods_from(bytes@, pos as int, (num_mods - t) as nat) matches Some(rest)
                ==> parse_mods_from(bytes@, 5, num_mods as nat) == Some(rules_view(out@) + rest),
            parse_mods_from(bytes@, pos as int, (num_mods - t) as nat) is None
                ==> parse_mods_from(bytes@, 5, num_mods as nat) is None,
        decreases num_mods - t,
    {
        if bytes.len() < 10 || pos > bytes.len() - 10 {
            return Err(Error::Truncated);
        }
        let p = pos + 5;
        let id: u32 = bytes[p] as u32 + bytes[p + 1] as u32 * 256 + bytes[p + 2] as u32 * 65536
            + bytes[p + 3] as u32 * 16777216;
        assert(id == u32_le_at(bytes@, p as int));
        let name_len = bytes[p + 4];
        if name_len as usize > bytes.len() - (p + 5) {
            return Err(Error::Truncated);
        }
        let mut nm: Vec<u8> = Vec::new();
        let mut k: usize = 0;
        while k < name_len as usize
            invariant
                k <= name_len as usize,
                p + 5 + name_len as usize <= bytes@.len(),
                bytes@.len() <= usize::MAX,
                nm@ == bytes@.subrange(p + 5, p + 5 + k),
            decreases name_len as usize - k,
        {
            nm.push(bytes[p + 5 + k]);
            proof {
                assert(nm@ =~= bytes@.subrange(p + 5, p + 5 + k + 1));
            }
            k = k + 1;
        }
        let m = Rule::Mod { id, name: lossy_string(nm.as_slice()) };
        let ghost mv = m@;
        out.push(m);
        proof {
            assert(rules_view(out@) =~= rules_view(out@.drop_last()) + seq![mv]);
            match parse_mods_from(bytes@, p + 5 + name_len as int, (num_mods - t - 1) as nat) {
                Some(rest) => {
                    assert(parse_mods_from(bytes@, pos as int, (num_mods - t) as nat) == Some(
                        seq![mv] + rest,
                    ));
                    assert(rules_view(out@.drop_last()) + (seq![mv] + rest) =~= (rules_view(
                        out@.drop_last(),
                    ) + seq![mv]) + rest);
                },
                None => {},
            }
        }
        pos = p + 5 + name_len as usize;
        t = t + 1;
    }
    proof {
        assert(parse_mods_from(bytes@, pos as int, 0) == Some(Seq::<RuleView>::empty()));
        assert(rules_view(out@) + Seq::<RuleView>::empty() =~= rules_view(out@));
    }
    Ok(out)
}

/// The decoded form of a whole response buffer: the regular rules in arrival
/// order, then the mod records parsed from the reassembled carrier buffer.
/// The detection constants come from the first entry, which is itself still
/// classified like every other entry. Bytes after the last entry are
/// ignored.
pub open spec fn decode_spec(d: Seq<u8>) -> Result<Seq<RuleView>, Error> {
    if d.len() < 1 {
        Err(Error::Truncated)
    } else if d[0] != RESPONSE_MARKER {
        Err(Error::InvalidResponse)
    } else if d.len() < 3 {
        Err(Error::Truncated)
    } else {
        match read_entries_spec(d, 3, u16_le_at(d, 1) as nat) {
            None => Err(Error::Truncated),
            Some(p) => {
                let nmr = num_mod_rules_of(p.0);
                match parse_mods_from(mod_bytes_of(p.0, nmr), 5, num_mods_of(p.0) as nat) {
                    None => Err(Error::Truncated),
                    Some(mods) => Ok(regulars_of(p.0, nmr) + mods),
                }
            },
        }
    }
}

impl Rule {
    /// Decodes one response buffer into its rule list. Fails with
    /// [`Error::InvalidResponse`] when the first byte is not the marker, and
    /// with [`Error::Truncated`] when any read runs past the end of the
    /// buffer; no partial list is ever returned.
    pub fn from_cursor(data: Vec<u8>) -> (r: Result<Vec<Rule>, Error>)
        ensures
            r is Ok <==> decode_spec(data@) is Ok,
            r matches Ok(v) ==> decode_spec(data@) == Ok::<Seq<RuleView>, Error>(rules_view(v@)),
            r matches Err(e) ==> decode_spec(data@) == Err::<Seq<RuleView>, Error>(e),
    {
        if data.len() < 1 {
            return Err(Error::Truncated);
        }
        if data[0] != RESPONSE_MARKER {
            return Err(Error::InvalidResponse);
        }
        if data.len() < 3 {
            return Err(Error::Truncated);
        }
        let count: u16 = data[1] as u16 + data[2] as u16 * 256;
        assert(count == u16_le_at(data@, 1));
        let read = read_entries(&data, 3, count);
        let entries = match read {
            None => {
                return Err(Error::Truncated);
            },
            Some(p) => p.0,
        };
        let ghost es = entries_view(entries@);
        let (num_mods, num_mod_rules): (u8, u8) = if entries.len() == 0 {
            (0, 0)
        } else {
            let v0 = unescape(&entries[0].value);
            let nm = if v0.len() > 4 {
                v0[4]
            } else {
                0
            };
            let nmr = if entries[0].name.len() > 1 {
                entries[0].name[1]
            } else {
                0
            };
            (nm, nmr)
        };
        assert(num_mods == num_mods_of(es));
        assert(num_mod_rules == num_mod_rules_of(es));
        let mut rules: Vec<Rule> = Vec::new();
        let mut mod_bytes: Vec<u8> = Vec::new();
        let mut j: usize = 0;
        proof {
            assert(es.take(0) =~= Seq::<(Seq<u8>, Seq<u8>)>::empty());
            assert(rules_view(rules@) =~= regulars_of(es.take(0), num_mod_rules));
        }
        while j < entries.len()
            invariant
                j <= entries@.len(),
                es == entries_view(entries@),
                rules_view(rules@) == regulars_of(es.take(j as int), num_mod_rules),
                mod_bytes@ == mod_bytes_of(es.take(j as int), num_mod_rules),
            decreases entries@.len() - j,
        {
            let e = &entries[j];
            let mut uv = unescape(&e.value);
            proof {
                assert(es[j as int] == e@);
                assert(es.take(j + 1).drop_last() =~= es.take(j as int));
                assert(es.take(j + 1).last() == es[j as int]);
            }
            if is_carrier(&e.name, num_mod_rules) {
                mod_bytes.append(&mut uv);
            } else {
                let name = lossy_string(e.name.as_slice());
                let value = lossy_string(uv.as_slice());
                let rule = Rule::Regular { name, value };
                let ghost rv = rule@;
                rules.push(rule);
                proof {
                    assert(rv == regular_view(es[j as int]));
                    assert(rules_view(rules@) =~= rules_view(rules@.drop_last()) + seq![rv]);
                }
            }
            j = j + 1;
        }
        proof {
            assert(es.take(entries@.len() as int) =~= es);
        }
        let parsed = parse_mods(&mod_bytes, num_mods);
        let mut mods = match parsed {
            Err(e) => {
                return Err(e);
            },
            Ok(m) => m,
        };
        let ghost regs = rules_view(rules@);
        let ghost mvs = rules_view(mods@);
        rules.append(&mut mods);
        proof {
            assert(rules_view(rules@) =~= regs + mvs);
        }
        Ok(rules)
    }

    /// The wire bytes of one rule. A regular rule is its name and value,
    /// each null-terminated; a mod record is its name, null-terminated,
    /// followed by the four raw little-endian bytes of its id. No escape
    /// stuffing or carrier disguise is applied: encoding is a fixture
    /// builder, not a faithful inverse for mod entries.
    pub fn to_bytes(&self) -> (r: Vec<u8>)
        ensures
            r@ == rule_bytes_spec(self@),
    {
        let mut bytes: Vec<u8> = Vec::new();
        match self {
            Rule::Regular { name, value } => {
                let mut nb = name.as_str().as_bytes_vec();
                bytes.append(&mut nb);
                bytes.push(0);
                let mut vb = value.as_str().as_bytes_vec();
                bytes.append(&mut vb);
                bytes.push(0);
                proof {
                    assert(bytes@ =~= encode_utf8(name@) + seq![0u8] + encode_utf8(value@)
                        + seq![0u8]);
                }
            },
            Rule::Mod { id, name } => {
                let mut nb = name.as_str().as_bytes_vec();
                bytes.append(&mut nb);
                bytes.push(0);
                let i = *id;
                bytes.push((i % 256) as u8);
                bytes.push((i / 256 % 256) as u8);
                bytes.push((i / 65536 % 256) as u8);
                bytes.push((i / 16777216 % 256) as u8);
                proof {
                    assert(bytes@ =~= encode_utf8(name@) + seq![0u8] + u32_le_bytes(i));
                }
            },
        }
        bytes
    }

    /// The wire bytes of a whole response holding the given rules: the
    /// marker byte, the entry count as a 16-bit little-endian integer, then
    /// each rule's bytes. The count field limits a response to 0xFFFF rules.
    pub fn vec_to_bytes(rules: Vec<Rule>) -> (r: Vec<u8>)
        requires
            rules@.len() <= 0xFFFF,
        ensures
            r@ == encode_spec(rules_view(rules@)),
    {
        let count: u16 = rules.len() as u16;
        let mut bytes: Vec<u8> = Vec::new();
        bytes.push(RESPONSE_MARKER);
        bytes.push((count % 256) as u8);
        bytes.push((count / 256) as u8);
        let ghost rvs = rules_view(rules@);
        proof {
            assert(rvs.len() == rules@.len());
            assert(rvs.take(0) =~= Seq::<RuleView>::empty());
            assert(bytes@ =~= seq![RESPONSE_MARKER] + u16_le_bytes((rvs.len() % 0x10000) as u16)
                + rules_bytes_spec(rvs.take(0)));
        }
        let mut i: usize = 0;
        while i < rules.len()
            invariant
                i <= rules@.len(),
                rvs == rules_view(rules@),
                rvs.len() <= 0xFFFF,
                bytes@ == seq![RESPONSE_MARKER] + u16_le_bytes((rvs.len() % 0x10000) as u16)
                    + rules_bytes_spec(rvs.take(i as int)),
            decreases rules@.len() - i,
        {
            let mut rb = rules[i].to_bytes();
            proof {
                assert(rvs[i as int] == rules@[i as int]@);
                assert(rvs.take(i + 1) =~= rvs.take(i as int).push(rvs[i as int]));
                lemma_rules_bytes_snoc(rvs.take(i as int), rvs[i as int]);
            }
            bytes.append(&mut rb);
            proof {
                assert(bytes@ =~= seq![RESPONSE_MARKER] + u16_le_bytes(
                    (rvs.len() % 0x10000) as u16,
                ) + rules_bytes_spec(rvs.take(i + 1)));
            }
            i = i + 1;
        }
        proof {
            assert(rvs.take(rules@.len() as int) =~= rvs);
        }
        bytes
    }
}

/// The wire bytes of one rule; see [`Rule::to_bytes`].
pub open spec fn rule_bytes_spec(r: RuleView) -> Seq<u8> {
    match r {
        RuleView::Regular { name, value } => encode_utf8(name) + seq![0u8] + encode_utf8(value)
            + seq![0u8],
        RuleView::Mod { id, name } => encode_utf8(name) + seq![0u8] + u32_le_bytes(id),
    }
}

/// The concatenated wire bytes of a sequence of rules, in order.
pub open spec fn rules_bytes_spec(rs: Seq<RuleView>) -> Seq<u8>
    decreases rs.len(),
{
    if rs.len() == 0 {
        Seq::empty()
    } else {
        rule_bytes_spec(rs.first()) + rules_bytes_spec(rs.drop_first())
    }
}

/// The wire bytes of a whole response; see [`Rule::vec_to_bytes`].
pub open spec fn encode_spec(rs: Seq<RuleView>) -> Seq<u8> {
    seq![RESPONSE_MARKER] + u16_le_bytes((rs.len() % 0x10000) as u16) + rules_bytes_spec(rs)
}

/// Appending a rule appends its bytes.
pub proof fn lemma_rules_bytes_snoc(rs: Seq<RuleView>, x: RuleView)
    ensures
        rules_bytes_spec(rs.push(x)) == rules_bytes_spec(rs) + rule_bytes_spec(x),
    decreases rs.len(),
{
    if rs.len() == 0 {
        assert(rs.push(x).first() == x);
        assert(rs.push(x).drop_first() =~= Seq::<RuleView>::empty());
        assert(rules_bytes_spec(rs.push(x)) == rule_bytes_spec(x) + rules_bytes_spec(
            Seq::<RuleView>::empty(),
        ));
        assert(rules_bytes_spec(rs.push(x)) =~= rules_bytes_spec(rs) + rule_bytes_spec(x));
    } else {
        assert(rs.push(x).first() == rs.first());
        assert(rs.push(x).drop_first() =~= rs.drop_first().push(x));
        lemma_rules_bytes_snoc(rs.drop_first(), x);
        assert(rules_bytes_spec(rs.push(x)) == rule_bytes_spec(rs.first()) + (rules_bytes_spec(
            rs.drop_first(),
        ) + rule_bytes_spec(x)));
        assert(rules_bytes_spec(rs.push(x)) =~= rules_bytes_spec(rs) + rule_bytes_spec(x));
    }
}

} // verus!
