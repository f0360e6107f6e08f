//! Low-level wire primitives: null-terminated byte strings, little-endian
//! integers, and the sequence of raw name/value entries that a rules
//! response carries.

use vstd::prelude::*;

verus! {

/// A name/value entry as read off the wire, before classification and before
/// the value is unescaped.
pub struct RawEntry {
    pub name: Vec<u8>,
    pub value: Vec<u8>,
}

impl View for RawEntry {
    type V = (Seq<u8>, Seq<u8>);

    open spec fn view(&self) -> (Seq<u8>, Seq<u8>) {
        (self.name@, self.value@)
    }
}

/// The byte views of a sequence of raw entries.
pub open spec fn entries_view(es: Seq<RawEntry>) -> Seq<(Seq<u8>, Seq<u8>)> {
    es.map_values(|e: RawEntry| e@)
}

/// The 16-bit little-endian integer stored at offset `i`.
pub open spec fn u16_le_at(d: Seq<u8>, i: int) -> u16
    recommends
        0 <= i,
        i + 2 <= d.len(),
{
    (d[i] + d[i + 1] * 256) as u16
}

/// The 32-bit little-endian integer stored at offset `i`.
pub open spec fn u32_le_at(d: Seq<u8>, i: int) -> u32
    recommends
        0 <= i,
        i + 4 <= d.len(),
{
    (d[i] + d[i + 1] * 256 + d[i + 2] * 65536 + d[i + 3] * 16777216) as u32
}

/// The two little-endian bytes of a 16-bit integer.
pub open spec fn u16_le_bytes(n: u16) -> Seq<u8> {
    seq![(n % 256) as u8, (n / 256) as u8]
}

/// The four little-endian bytes of a 32-bit integer.
pub open spec fn u32_le_bytes(n: u32) -> Seq<u8> {
    seq![
        (n % 256) as u8,
        ((n / 256) % 256) as u8,
        ((n / 65536) % 256) as u8,
        ((n / 16777216) % 256) as u8,
    ]
}

/// The null-terminated byte string starting at offset `i`: the bytes before
/// the first terminator, and the offset just past that terminator. `None`
/// when the buffer ends before a terminator is found.
pub open spec fn read_cstr_spec(d: Seq<u8>, i: int) -> Option<(Seq<u8>, int)>
    decreases d.len() - i,
{
    if i < 0 || i >= d.len() {
        None
    } else if d[i] == 0 {
        Some((Seq::empty(), i + 1))
    } else {
        match read_cstr_spec(d, i + 1) {
            None => None,
            Some((s, j)) => Some((seq![d[i]] + s, j)),
        }
    }
}

/// `n` consecutive (name, raw value) entries starting at offset `i`, each a
/// pair of null-terminated byte strings, and the offset just past them.
pub open spec fn read_entries_spec(d: Seq<u8>, i: int, n: nat) -> Option<
    (Seq<(Seq<u8>, Seq<u8>)>, int),
>
    decreases n,
{
    if n == 0 {
        Some((Seq::empty(), i))
    } else {
        match read_cstr_spec(d, i) {
            None => None,
            Some((name, j)) => match read_cstr_spec(d, j) {
                None => None,
                Some((value, k)) => match read_entries_spec(d, k, (n - 1) as nat) {
                    None => None,
                    Some((rest, end)) => Some((seq![(name, value)] + rest, end)),
                },
            },
        }
    }
}

/// A null-free byte string laid down at offset `i` with its terminator is
/// read back exactly.
pub proof fn lemma_read_cstr_of_encoded(d: Seq<u8>, i: int, b: Seq<u8>)
    requires
        0 <= i,
        i + b.len() + 1 <= d.len(),
        forall|k: int| 0 <= k < b.len() ==> #[trigger] b[k] != 0,
        d.subrange(i, i + b.len() as int) == b,
        d[i + b.len() as int] == 0,
    ensures
        read_cstr_spec(d, i) == Some((b, i + b.len() + 1)),
    decreases b.len(),
{
    if b.len() == 0 {
        assert(d[i] == 0);
        assert(read_cstr_spec(d, i) == Some((Seq::<u8>::empty(), i + 1)));
        assert(Seq::<u8>::empty() =~= b);
    } else {
        assert(d[i] == d.subrange(i, i + b.len() as int)[0]);
        assert(d[i] == b[0]);
        assert(b[0] != 0);
        let rest = b.skip(1);
        assert(d.subrange(i + 1, i + 1 + rest.len() as int) =~= rest) by {
            assert forall|k: int| 0 <= k < rest.len() implies d.subrange(
                i + 1,
                i + 1 + rest.len() as int,
            )[k] == rest[k] by {
                assert(d[i + 1 + k] == d.subrange(i, i + b.len() as int)[k + 1]);
            }
        }
        assert(forall|k: int| 0 <= k < rest.len() ==> #[trigger] rest[k] != 0);
        lemma_read_cstr_of_encoded(d, i + 1, rest);
        assert(seq![d[i]] + rest =~= b);
    }
}

/// Reads the null-terminated byte string at `start`, returning the bytes
/// before the terminator and the offset just past it; `None` when the buffer
/// ends first.
pub fn read_cstr(data: &Vec<u8>, start: usize) -> (r: Option<(Vec<u8>, usize)>)
    ensures
        r matches Some(p) ==> read_cstr_spec(data@, start as int) == Some((p.0@, p.1 as int))
            && start < p.1 <= data@.len(),
        r is None ==> read_cstr_spec(data@, start as int) is None,
{
    let mut acc: Vec<u8> = Vec::new();
    let mut j: usize = start;
    while j < data.len()
        invariant
            start <= j,
            read_cstr_spec(data@, j as int) matches Some(p) ==> read_cstr_spec(
                data@,
                start as int,
            ) == Some((acc@ + p.0, p.1)),
            read_cstr_spec(data@, j as int) is None ==> read_cstr_spec(
                data@,
                start as int,
            ) is None,
        decreases data@.len() - j,
    {
        let c = data[j];
        if c == 0 {
            proof {
                assert(read_cstr_spec(data@, j as int) == Some((Seq::<u8>::empty(), j + 1)));
                assert(acc@ + Seq::<u8>::empty() =~= acc@);
            }
            return Some((acc, j + 1));
        }
        acc.push(c);
        proof {
            match read_cstr_spec(data@, j + 1) {
                Some(p) => {
                    assert(read_cstr_spec(data@, j as int) == Some((seq![c] + p.0, p.1)));
                    assert(acc@ + p.0 =~= acc@.drop_last() + (seq![c] + p.0));
                },
                None => {},
            }
        }
        j = j + 1;
    }
    None
}

/// Reads `n` consecutive name/value entry pairs starting at `start`; `None`
/// when the buffer ends inside any of them.
pub fn read_entries(data: &Vec<u8>, start: usize, n: u16) -> (r: Option<(Vec<RawEntry>, usize)>)
    ensures
        r matches Some(p) ==> read_entries_spec(data@, start as int, n as nat) == Some(
            (entries_view(p.0@), p.1 as int),
        ),
        r is None ==> read_entries_spec(data@, start as int, n as nat) is None,
{
    let mut es: Vec<RawEntry> = Vec::new();
    let mut pos: usize = start;
    let mut t: u16 = 0;
    proof {
        assert(entries_view(Seq::<RawEntry>::empty()) =~= Seq::<(Seq<u8>, Seq<u8>)>::empty());
    }
    while t < n
        invariant
            t <= n,
            read_entries_spec(data@, pos as int, (n - t) as nat) matches Some(p)
                ==> read_entries_spec(data@, start as int, n as nat) == Some(
                (entries_view(es@) + p.0, p.1),
            ),
            read_entries_spec(data@, pos as int, (n - t) as nat) is None ==> read_entries_spec(
                data@,
                start as int,
                n as nat,
            ) is None,
        decreases n - t,
    {
        let name_read = read_cstr(data, pos);
        let (name, j) = match name_read {
            None => {
                return None;
            },
            Some(p) => p,
        };
        let value_read = read_cstr(data, j);
        let (value, k) = match value_read {
            None => {
                return None;
            },
            Some(p) => p,
        };
        let ghost evs = entries_view(es@);
        let e = RawEntry { name, value };
        let ghost ev = e@;
        es.push(e);
        proof {
            assert(entries_view(es@) =~= evs + seq![ev]);
            match read_entries_spec(data@, k as int, (n - t - 1) as nat) {
                Some(p) => {
                    assert(read_entries_spec(data@, pos as int, (n - t) as nat) == Some(
                        (seq![ev] + p.0, p.1),
                    ));
                    assert(evs + (seq![ev] + p.0) =~= (evs + seq![ev]) + p.0);
                },
                None => {},
            }
        }
        pos = k;
        t = t + 1;
    }
    proof {
        assert(read_entries_spec(data@, pos as int, 0) == Some(
            (Seq::<(Seq<u8>, Seq<u8>)>::empty(), pos as int),
        ));
        assert(entries_view(es@) + Seq::<(Seq<u8>, Seq<u8>)>::empty() =~= entries_view(es@));
    }
    Some((es, pos))
}

} // verus!
