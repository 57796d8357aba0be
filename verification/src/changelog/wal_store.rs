//! The rules of the segmented WAL store: how segment files are named, how a
//! segment's records are read back, and when the active segment rotates.
//!
//! Opening files, writing and syncing them is left to the caller.

use vstd::prelude::*;
use vstd::string::*;
use crate::changelog::record::{decode, record_bytes, record_wire, lemma_record_round_trip, RecordRead};
use crate::changelog::WalError;
use crate::text::{
    decimal, digit_value, digits_value, parse_u64_spec, push_decimal, str_parse_u64,
    str_strip_prefix, str_strip_suffix, digit_char,
};

verus! {

// ---------------------------------------------------------------------
// Segment names
// ---------------------------------------------------------------------

/// The text in front of a segment's first index.
pub open spec fn segment_prefix() -> Seq<char> {
    seq!['c', 'h', 'a', 'n', 'g', 'e', 'l', 'o', 'g', '_']
}

/// The text after a segment's first index.
pub open spec fn segment_suffix() -> Seq<char> {
    seq!['.', 'b', 'i', 'n']
}

/// The file name of the segment whose first record has index `first_index`.
pub open spec fn segment_name_spec(first_index: nat) -> Seq<char> {
    segment_prefix() + decimal(first_index) + segment_suffix()
}

/// The first index a file name stands for, when it is a segment's name.
pub open spec fn parse_segment_name_spec(name: Seq<char>) -> Option<u64> {
    let p = segment_prefix();
    let x = segment_suffix();
    if name.len() >= p.len() && name.subrange(0, p.len() as int) == p {
        let rest = name.subrange(p.len() as int, name.len() as int);
        if rest.len() >= x.len() && rest.subrange(rest.len() - x.len(), rest.len() as int) == x {
            parse_u64_spec(rest.subrange(0, rest.len() - x.len()))
        } else {
            None
        }
    } else {
        None
    }
}

/// `changelog_{first_index}.bin`
pub fn segment_name(first_index: u64) -> (r: String)
    ensures
        r@ == segment_name_spec(first_index as nat),
{
    let mut name = "changelog_".to_owned();
    proof {
        reveal_strlit("changelog_");
    }
    assert(name@ =~= segment_prefix());
    push_decimal(&mut name, first_index);
    name.append(".bin");
    proof {
        reveal_strlit(".bin");
    }
    assert(name@ =~= segment_name_spec(first_index as nat));
    name
}

/// The first index of the segment named `name`, or `None` when it is not a
/// segment's name.
pub fn parse_segment_name(name: &str) -> (r: Option<u64>)
    ensures
        r == parse_segment_name_spec(name@),
{
    proof {
        reveal_strlit("changelog_");
        reveal_strlit(".bin");
    }
    assert("changelog_"@ =~= segment_prefix());
    assert(".bin"@ =~= segment_suffix());
    let rest = match str_strip_prefix(name, "changelog_") {
        Some(r) => r,
        None => {
            return None;
        },
    };
    let middle = match str_strip_suffix(rest, ".bin") {
        Some(m) => m,
        None => {
            return None;
        },
    };
    str_parse_u64(middle)
}

proof fn lemma_digit_round_trip(d: nat)
    requires
        d < 10,
    ensures
        digit_value(digit_char(d)) == Some(d),
{
}

/// A decimal numeral reads back as its value.
pub proof fn lemma_decimal_round_trip(n: nat)
    ensures
        digits_value(decimal(n)) == Some(n),
        decimal(n).len() > 0,
        digit_value(decimal(n)[0]) is Some,
    decreases n,
{
    if n < 10 {
        lemma_digit_round_trip(n);
    } else {
        lemma_decimal_round_trip(n / 10);
        lemma_digit_round_trip(n % 10);
        let d = decimal(n);
        assert(d.drop_last() =~= decimal(n / 10));
        assert(d[0] == decimal(n / 10)[0]);
    }
}

/// Segment names read back as the index they were made from.
pub proof fn lemma_segment_name_round_trip(first_index: u64)
    ensures
        parse_segment_name_spec(segment_name_spec(first_index as nat)) == Some(first_index),
{
    let name = segment_name_spec(first_index as nat);
    let d = decimal(first_index as nat);
    lemma_decimal_round_trip(first_index as nat);
    assert(name.subrange(0, 10) =~= segment_prefix());
    let rest = name.subrange(10, name.len() as int);
    assert(rest =~= d + segment_suffix());
    assert(rest.subrange(rest.len() - 4, rest.len() as int) =~= segment_suffix());
    assert(rest.subrange(0, rest.len() - 4) =~= d);
    assert(d[0] != '+');
}

// ---------------------------------------------------------------------
// Reading a segment back
// ---------------------------------------------------------------------

/// The records of a segment's bytes, in order, read until too few bytes for
/// another one remain; `None` when a record is corrupt.
pub open spec fn segment_records(s: Seq<u8>) -> Option<Seq<(u64, u64, Seq<u8>)>>
    decreases s.len(),
{
    match record_wire(s) {
        RecordRead::NeedMore => Some(Seq::empty()),
        RecordRead::Corrupt => None,
        RecordRead::Record(index, term, payload, size) => if size <= 0 || size > s.len() {
            Some(Seq::empty())
        } else {
            match segment_records(s.skip(size)) {
                Some(rest) => Some(seq![(index, term, payload)] + rest),
                None => None,
            }
        },
    }
}

/// The index of the last record of a sequence, or 0 when it is empty.
pub open spec fn last_index_of_records(rs: Seq<(u64, u64, Seq<u8>)>) -> u64 {
    if rs.len() == 0 {
        0
    } else {
        rs.last().0
    }
}

proof fn lemma_record_size(s: Seq<u8>)
    ensures
        record_wire(s) matches RecordRead::Record(_, _, _, size) ==> 38 <= size <= s.len(),
{
    reveal(record_wire);
}

/// The index of the last record in a segment's bytes, or 0 when it holds
/// none; a corrupt record is `ChecksumMismatch`.
pub fn last_index_in(data: &[u8]) -> (r: Result<u64, WalError>)
    ensures
        match segment_records(data@) {
            Some(rs) => r matches Ok(i) && i == last_index_of_records(rs),
            None => r matches Err(WalError::ChecksumMismatch),
        },
{
    let mut buf: &[u8] = data;
    let mut last_index: u64 = 0;
    let ghost mut seen: Seq<(u64, u64, Seq<u8>)> = Seq::empty();
    assert(data@.skip(0) =~= data@);
    loop
        invariant
            segment_records(data@) == match segment_records(buf@) {
                Some(rest) => Some(seen + rest),
                None => None::<Seq<(u64, u64, Seq<u8>)>>,
            },
            last_index == last_index_of_records(seen),
        decreases buf@.len(),
    {
        let ghost here = buf@;
        proof {
            lemma_record_size(here);
        }
        match decode(&mut buf) {
            Ok(Some((index, _term, _payload))) => {
                proof {
                    let (t, p) = match record_wire(here) {
                        RecordRead::Record(_, t, p, _) => (t, p),
                        _ => arbitrary(),
                    };
                    match segment_records(buf@) {
                        Some(rest) => {
                            assert(seen + (seq![(index, t, p)] + rest) =~= seen.push(
                                (index, t, p),
                            ) + rest);
                        },
                        None => {},
                    }
                    seen = seen.push((index, t, p));
                }
                last_index = index;
            },
            Ok(None) => {
                assert(seen + Seq::<(u64, u64, Seq<u8>)>::empty() =~= seen);
                return Ok(last_index);
            },
            Err(e) => {
                return Err(e);
            },
        }
    }
}

/// Decoded records as specification values.
pub open spec fn entries_view(es: Seq<(u64, u64, Vec<u8>)>) -> Seq<(u64, u64, Seq<u8>)> {
    es.map_values(|e: (u64, u64, Vec<u8>)| (e.0, e.1, e.2@))
}

/// The records in a segment's bytes, in order, up to a torn tail; a corrupt
/// record is `ChecksumMismatch`.
pub fn segment_entries(data: &[u8]) -> (r: Result<Vec<(u64, u64, Vec<u8>)>, WalError>)
    ensures
        match segment_records(data@) {
            Some(rs) => r matches Ok(es) && entries_view(es@) == rs,
            None => r matches Err(WalError::ChecksumMismatch),
        },
{
    let mut buf: &[u8] = data;
    let mut out: Vec<(u64, u64, Vec<u8>)> = Vec::new();
    assert(data@.skip(0) =~= data@);
    assert(entries_view(out@) =~= Seq::<(u64, u64, Seq<u8>)>::empty());
    loop
        invariant
            segment_records(data@) == match segment_records(buf@) {
                Some(rest) => Some(entries_view(out@) + rest),
                None => None::<Seq<(u64, u64, Seq<u8>)>>,
            },
        decreases buf@.len(),
    {
        let ghost here = buf@;
        let ghost before = out@;
        proof {
            lemma_record_size(here);
        }
        match decode(&mut buf) {
            Ok(Some((index, term, payload))) => {
                let ghost item = (index, term, payload@);
                out.push((index, term, payload));
                proof {
                    assert(entries_view(out@) =~= entries_view(before).push(item));
                    match segment_records(buf@) {
                        Some(rest) => {
                            assert(entries_view(before) + (seq![item] + rest) =~= entries_view(before).push(item) + rest);
                        },
                        None => {},
                    }
                }
            },
            Ok(None) => {
                assert(entries_view(out@) + Seq::<(u64, u64, Seq<u8>)>::empty() =~= entries_view(out@));
                return Ok(out);
            },
            Err(e) => {
                return Err(e);
            },
        }
    }
}

/// The bytes of a sequence of records written one after the other.
pub open spec fn records_bytes(rs: Seq<(u8, u64, u64, u8, Seq<u8>)>) -> Seq<u8>
    decreases rs.len(),
{
    if rs.len() == 0 {
        Seq::empty()
    } else {
        record_bytes(rs[0].0, rs[0].1, rs[0].2, rs[0].3, rs[0].4) + records_bytes(rs.drop_first())
    }
}

/// Records written one after the other read back as their indices, terms
/// and payloads, in the order they were written, whatever incomplete tail
/// (a torn write) follows them.
pub proof fn lemma_segment_round_trip(rs: Seq<(u8, u64, u64, u8, Seq<u8>)>, tail: Seq<u8>)
    requires
        forall|i: int| 0 <= i < rs.len() ==> (#[trigger] rs[i]).4.len() <= u32::MAX,
        record_wire(tail) is NeedMore,
    ensures
        segment_records(records_bytes(rs) + tail) == Some(
            Seq::new(rs.len(), |i: int| (rs[i].1, rs[i].2, rs[i].4)),
        ),
    decreases rs.len(),
{
    if rs.len() == 0 {
        assert(records_bytes(rs) + tail =~= tail);
        assert(Seq::new(rs.len(), |i: int| (rs[i].1, rs[i].2, rs[i].4)) =~= Seq::<
            (u64, u64, Seq<u8>),
        >::empty());
    } else {
        let r = rs[0];
        let later = rs.drop_first();
        assert forall|i: int| 0 <= i < later.len() implies (#[trigger] later[i]).4.len()
            <= u32::MAX by {
            assert(later[i] == rs[i + 1]);
        }
        lemma_segment_round_trip(later, tail);
        let s = records_bytes(rs) + tail;
        let rest = records_bytes(later) + tail;
        assert(s =~= record_bytes(r.0, r.1, r.2, r.3, r.4) + rest);
        lemma_record_round_trip(r.0, r.1, r.2, r.3, r.4, rest);
        let size = 38 + r.4.len() as int;
        assert(s.skip(size) =~= rest);
        assert(Seq::new(rs.len(), |i: int| (rs[i].1, rs[i].2, rs[i].4)) =~= seq![(r.1, r.2, r.4)]
            + Seq::new(later.len(), |i: int| (later[i].1, later[i].2, later[i].4)));
    }
}

// ---------------------------------------------------------------------
// Rotation
// ---------------------------------------------------------------------

/// The first index of the segment to start after a flush, when the active
/// segment has reached `max_segment_bytes`: the index after the last one
/// appended.
pub fn rotation_start(bytes_written: u64, max_segment_bytes: u64, last_index: u64) -> (r: Option<
    u64,
>)
    requires
        bytes_written >= max_segment_bytes ==> last_index < u64::MAX,
    ensures
        bytes_written >= max_segment_bytes ==> r == Some((last_index + 1) as u64),
        bytes_written < max_segment_bytes ==> r is None,
{
    if bytes_written >= max_segment_bytes {
        Some(last_index + 1)
    } else {
        None
    }
}

} // verus!
