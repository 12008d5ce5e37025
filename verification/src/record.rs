//! One record of the ledger as one line of text: the key, the latitude, the
//! longitude and, where the subscriber was alerted before, the time of the
//! last alert.

use crate::decimal::{
    lemma_fixed7_reads_back, lemma_i64_reads_back, lemma_u64_reads_back, parse_fixed7, parse_i64,
    parse_u64, read_fixed7, read_i64, read_u64, render_fixed7, render_i64, render_nat,
    write_fixed7, write_i64, write_nat,
};
use crate::domain::Location;
use crate::tokens::{
    free_of, lemma_tokens_cons, lemma_tokens_single, slice_of, split, tokens, Separator,
};
use vstd::prelude::*;

verus! {

/// The byte between two fields of a record.
pub const SPACE: u8 = 0x20;

/// The byte that ends a record.
pub const NEWLINE: u8 = 0x0A;

/// What the ledger holds under a key: where the subscriber is, and when the
/// subscriber was last alerted, in seconds since the epoch.
pub type Entry = (Location, Option<u64>);

/// The first field of a line that is missing or cannot be read.
#[derive(Clone, Copy, Debug, PartialEq, Eq, Structural)]
pub enum RecordError {
    Key,
    Latitude,
    Longitude,
}

/// The record that a line spells. The fields are the pieces of the line
/// between whitespace. The first three must be there and must read as a
/// key, a latitude and a longitude. A fourth that reads as a time is the
/// time of the last alert; any other fourth field, like the fields behind
/// it, says nothing.
pub open spec fn parse_record(line: Seq<u8>) -> Result<(i64, Entry), RecordError> {
    let fields = tokens(line, Separator::Whitespace);
    if fields.len() < 1 || parse_i64(fields[0]) is None {
        Err(RecordError::Key)
    } else if fields.len() < 2 || parse_fixed7(fields[1]) is None {
        Err(RecordError::Latitude)
    } else if fields.len() < 3 || parse_fixed7(fields[2]) is None {
        Err(RecordError::Longitude)
    } else {
        let location = Location { lat: parse_fixed7(fields[1])->0, lon: parse_fixed7(fields[2])->0 };
        let last_alert = if fields.len() >= 4 {
            parse_u64(fields[3])
        } else {
            None
        };
        Ok((parse_i64(fields[0])->0, (location, last_alert)))
    }
}

/// The time of the last alert as the end of a line: a space and the time,
/// or nothing where there was no alert.
pub open spec fn render_last_alert(last_alert: Option<u64>) -> Seq<u8> {
    match last_alert {
        Some(time) => seq![SPACE] + render_nat(time as nat),
        None => Seq::empty(),
    }
}

/// The line that spells a record, without the line feed that ends it.
pub open spec fn render_line(key: i64, entry: Entry) -> Seq<u8> {
    render_i64(key) + seq![SPACE] + render_fixed7(entry.0.lat) + seq![SPACE] + render_fixed7(
        entry.0.lon,
    ) + render_last_alert(entry.1)
}

/// Reads the record that a line spells.
pub fn read_record(line: &[u8]) -> (record: Result<(i64, Entry), RecordError>)
    ensures
        record == parse_record(line@),
{
    let fields = split(line, Separator::Whitespace);
    if fields.len() < 1 {
        return Err(RecordError::Key);
    }
    let key = match read_i64(slice_of(line, fields[0])) {
        Some(key) => key,
        None => {
            return Err(RecordError::Key);
        },
    };
    if fields.len() < 2 {
        return Err(RecordError::Latitude);
    }
    let lat = match read_fixed7(slice_of(line, fields[1])) {
        Some(lat) => lat,
        None => {
            return Err(RecordError::Latitude);
        },
    };
    if fields.len() < 3 {
        return Err(RecordError::Longitude);
    }
    let lon = match read_fixed7(slice_of(line, fields[2])) {
        Some(lon) => lon,
        None => {
            return Err(RecordError::Longitude);
        },
    };
    let last_alert = if fields.len() >= 4 {
        read_u64(slice_of(line, fields[3]))
    } else {
        None
    };
    Ok((key, (Location::new(lat, lon), last_alert)))
}

/// Appends the line that spells a record, and the line feed that ends it.
pub fn write_record(out: &mut Vec<u8>, key: i64, entry: &Entry)
    ensures
        final(out)@ == old(out)@ + render_line(key, *entry) + seq![NEWLINE],
{
    write_i64(out, key);
    out.push(SPACE);
    write_fixed7(out, entry.0.lat());
    out.push(SPACE);
    write_fixed7(out, entry.0.lon());
    match entry.1 {
        Some(time) => {
            out.push(SPACE);
            write_nat(out, time);
        },
        None => {},
    }
    out.push(NEWLINE);
    proof {
        let head = render_i64(key) + seq![SPACE] + render_fixed7(entry.0.lat) + seq![SPACE]
            + render_fixed7(entry.0.lon);
        match entry.1 {
            Some(time) => {
                assert(final(out)@ == old(out)@ + (head + (seq![SPACE] + render_nat(time as nat)))
                    + seq![NEWLINE]);
            },
            None => {
                assert(final(out)@ == old(out)@ + (head + Seq::<u8>::empty()) + seq![NEWLINE]);
            },
        }
    }
}

/// Two texts without a separator make a text without it.
pub proof fn lemma_free_of_concat(a: Seq<u8>, b: Seq<u8>, sep: Separator)
    requires
        free_of(a, sep),
        free_of(b, sep),
    ensures
        free_of(a + b, sep),
{
    assert forall|i: int| 0 <= i < (a + b).len() implies !sep.matches(#[trigger] (a + b)[i]) by {
        if i < a.len() {
            assert((a + b)[i] == a[i]);
        } else {
            assert((a + b)[i] == b[i - a.len()]);
        }
    }
}

/// A text without whitespace holds no line feed.
pub proof fn lemma_solid_has_no_newline(a: Seq<u8>)
    requires
        free_of(a, Separator::Whitespace),
    ensures
        free_of(a, Separator::Newline),
{
    assert forall|i: int| 0 <= i < a.len() implies !Separator::Newline.matches(#[trigger] a[i]) by {
        assert(!Separator::Whitespace.matches(a[i]));
    }
}

/// A record that was written on a line is read back from it as it was, and
/// the line is not empty and holds no line feed.
pub proof fn lemma_record_reads_back(key: i64, entry: Entry)
    ensures
        parse_record(render_line(key, entry)) == Ok::<(i64, Entry), RecordError>((key, entry)),
        render_line(key, entry).len() > 0,
        free_of(render_line(key, entry), Separator::Newline),
{
    let sep = Separator::Whitespace;
    let k = render_i64(key);
    let lat = render_fixed7(entry.0.lat);
    let lon = render_fixed7(entry.0.lon);
    let space = seq![SPACE];
    let line = render_line(key, entry);
    lemma_i64_reads_back(key);
    lemma_fixed7_reads_back(entry.0.lat);
    lemma_fixed7_reads_back(entry.0.lon);
    assert(free_of(space, Separator::Newline));
    lemma_solid_has_no_newline(k);
    lemma_solid_has_no_newline(lat);
    lemma_solid_has_no_newline(lon);
    lemma_free_of_concat(k, space, Separator::Newline);
    lemma_free_of_concat(k + space, lat, Separator::Newline);
    lemma_free_of_concat(k + space + lat, space, Separator::Newline);
    lemma_free_of_concat(k + space + lat + space, lon, Separator::Newline);
    match entry.1 {
        Some(time) => {
            let t = render_nat(time as nat);
            lemma_u64_reads_back(time);
            lemma_solid_has_no_newline(t);
            lemma_free_of_concat(space, t, Separator::Newline);
            lemma_free_of_concat(k + space + lat + space + lon, space + t, Separator::Newline);
            let rest3 = t;
            let rest2 = lon + space + rest3;
            let rest1 = lat + space + rest2;
            assert(line == k + space + rest1);
            lemma_tokens_cons(k, SPACE, rest1, sep);
            lemma_tokens_cons(lat, SPACE, rest2, sep);
            lemma_tokens_cons(lon, SPACE, rest3, sep);
            lemma_tokens_single(t, sep);
            assert(tokens(line, sep) == seq![k, lat, lon, t]);
        },
        None => {
            lemma_free_of_concat(
                k + space + lat + space + lon,
                Seq::<u8>::empty(),
                Separator::Newline,
            );
            let rest2 = lon;
            let rest1 = lat + space + rest2;
            assert(line == k + space + rest1);
            lemma_tokens_cons(k, SPACE, rest1, sep);
            lemma_tokens_cons(lat, SPACE, rest2, sep);
            lemma_tokens_single(lon, sep);
            assert(tokens(line, sep) == seq![k, lat, lon]);
        },
    }
}

} // verus!
