//! The shard normalizer: the records of one shard sorted by their timestamps and
//! written out again under the shard header.

use vstd::prelude::*;
use vstd::string::*;
use crate::access::{tail_field, time_field, Access};
use crate::error::FormatError;
use crate::order::{sorted_positions, stable_order, within};
use crate::timestamp::{
    displayed_datetime, parsed_datetime, timestamp_from, Timestamp, TIMESTAMP_PATTERN,
};
use crate::HEADER;

verus! {

/// The texts of a list of records.
pub open spec fn texts_of(records: Seq<Access>) -> Seq<Seq<char>> {
    Seq::new(records.len(), |i: int| records[i]@)
}

/// The instant a record's text gives, or the error where its timestamp does not
/// match the pattern.
pub open spec fn time_of(text: Seq<char>) -> Result<Timestamp, FormatError> {
    timestamp_from(parsed_datetime(time_field(text), TIMESTAMP_PATTERN@))
}

/// Whether every text has a timestamp that matches the pattern.
pub open spec fn all_timed(texts: Seq<Seq<char>>) -> bool {
    forall|i: int| 0 <= i < texts.len() ==> time_of(#[trigger] texts[i]) is Ok
}

/// The instant of each text, where all have one.
pub open spec fn instants(texts: Seq<Seq<char>>) -> Seq<Timestamp> {
    Seq::new(
        texts.len(),
        |i: int|
            match time_of(texts[i]) {
                Ok(instant) => instant,
                Err(_) => Timestamp { seconds: 0, nanos: 0 },
            },
    )
}

/// Reads the timestamp of every record. The first one that does not match the
/// pattern fails the whole list.
pub fn record_times(records: &Vec<Access>) -> (result: Result<Vec<Timestamp>, FormatError>)
    ensures
        match result {
            Ok(times) => all_timed(texts_of(records@)) && times@ == instants(texts_of(records@)),
            Err(fault) => !all_timed(texts_of(records@)) && fault == FormatError::Timestamp,
        },
{
    let ghost texts = texts_of(records@);
    let n: usize = records.len();
    let mut times: Vec<Timestamp> = Vec::new();
    let mut i: usize = 0;
    while i < n
        invariant
            i <= n,
            n == records@.len(),
            texts == texts_of(records@),
            times@.len() == i,
            forall|k: int| 0 <= k < i ==> time_of(#[trigger] texts[k]) == Ok::<
                Timestamp,
                FormatError,
            >(times@[k]),
        decreases n - i,
    {
        match records[i].time() {
            Ok(instant) => {
                times.push(instant);
            },
            Err(fault) => {
                assert(time_of(texts[i as int]) is Err);
                return Err(fault);
            },
        }
        i = i + 1;
    }
    assert(times@ =~= instants(texts));
    Ok(times)
}

/// One rewritten record: the timestamp as it was rendered, the rest of the line
/// from its first comma on, and a newline.
pub open spec fn rewritten_line(stamp: Seq<char>, text: Seq<char>) -> Seq<char> {
    stamp + tail_field(text) + seq!['\n']
}

/// Writes one record at the end of `out`, with `stamp` in place of its timestamp.
pub fn append_record(out: &mut String, stamp: &str, record: &Access)
    ensures
        final(out)@ == old(out)@ + rewritten_line(stamp@, record@),
{
    proof {
        reveal_strlit("\n");
    }
    out.append(stamp);
    out.append(record.tail());
    out.append("\n");
    assert(final(out)@ =~= old(out)@ + rewritten_line(stamp@, record@)) by {
        assert("\n"@ =~= seq!['\n']);
    }
}

/// How an instant is rendered, where it can be.
pub open spec fn rendered(instant: Timestamp) -> Option<Seq<char>> {
    displayed_datetime(instant.seconds, instant.nanos)
}

/// The shard written out again: the header, then the records in `order`, each with
/// its instant rendered anew. There is no text where an instant cannot be
/// rendered.
pub open spec fn rewritten(texts: Seq<Seq<char>>, times: Seq<Timestamp>, order: Seq<usize>) -> Option<
    Seq<char>,
>
    decreases order.len(),
{
    if order.len() == 0 {
        Some(HEADER@)
    } else {
        match (
            rewritten(texts, times, order.drop_last()),
            rendered(times[order.last() as int]),
        ) {
            (Some(head), Some(stamp)) => Some(
                head + rewritten_line(stamp, texts[order.last() as int]),
            ),
            _ => None,
        }
    }
}

/// Where the start of an order cannot be written out, the whole cannot either.
proof fn lemma_rewritten_prefix(
    texts: Seq<Seq<char>>,
    times: Seq<Timestamp>,
    order: Seq<usize>,
    count: int,
)
    requires
        0 <= count <= order.len(),
        rewritten(texts, times, order.subrange(0, count)) is None,
    ensures
        rewritten(texts, times, order) is None,
    decreases order.len() - count,
{
    if count < order.len() {
        let longer = order.subrange(0, count + 1);
        assert(longer.drop_last() =~= order.subrange(0, count));
        lemma_rewritten_prefix(texts, times, order, count + 1);
    } else {
        assert(order.subrange(0, count) =~= order);
    }
}

/// Writes the records out in `order`, under the header.
fn rewrite(records: &Vec<Access>, times: &Vec<Timestamp>, order: &Vec<usize>) -> (result: Option<
    String,
>)
    requires
        times@.len() == records@.len(),
        within(order@, 0, records@.len() as int),
    ensures
        match result {
            Some(text) => rewritten(texts_of(records@), times@, order@) == Some(text@),
            None => rewritten(texts_of(records@), times@, order@) is None,
        },
{
    let ghost texts = texts_of(records@);
    let mut out: String = String::from_str(HEADER);
    let n: usize = order.len();
    let mut i: usize = 0;
    assert(order@.subrange(0, 0) =~= Seq::<usize>::empty());
    while i < n
        invariant
            i <= n,
            n == order@.len(),
            texts == texts_of(records@),
            times@.len() == records@.len(),
            within(order@, 0, records@.len() as int),
            rewritten(texts, times@, order@.subrange(0, i as int)) == Some(out@),
        decreases n - i,
    {
        let ghost longer = order@.subrange(0, i + 1);
        assert(longer.drop_last() =~= order@.subrange(0, i as int));
        assert(longer.last() == order@[i as int]);
        let position: usize = order[i];
        let instant: Timestamp = times[position];
        match instant.render() {
            Some(stamp) => {
                append_record(&mut out, stamp.as_str(), &records[position]);
            },
            None => {
                proof {
                    lemma_rewritten_prefix(texts, times@, order@, i + 1);
                }
                return None;
            },
        }
        i = i + 1;
    }
    assert(order@.subrange(0, n as int) =~= order@);
    Some(out)
}

/// Normalizes a shard: its records, sorted by timestamp with records of one
/// instant in the order they came in, written out under the header. A timestamp
/// that does not match the pattern, or one that cannot be rendered, fails the
/// whole shard and nothing is written.
pub fn normalize(records: &Vec<Access>) -> (result: Result<String, FormatError>)
    ensures
        match result {
            Ok(text) => {
                &&& all_timed(texts_of(records@))
                &&& rewritten(
                    texts_of(records@),
                    instants(texts_of(records@)),
                    sorted_positions(instants(texts_of(records@))),
                ) == Some(text@)
            },
            Err(fault) => {
                &&& fault == FormatError::Timestamp
                &&& !all_timed(texts_of(records@)) || rewritten(
                    texts_of(records@),
                    instants(texts_of(records@)),
                    sorted_positions(instants(texts_of(records@))),
                ) is None
            },
        },
{
    let times = match record_times(records) {
        Ok(times) => times,
        Err(fault) => {
            return Err(fault);
        },
    };
    let order = stable_order(&times);
    match rewrite(records, &times, &order) {
        Some(text) => Ok(text),
        None => Err(FormatError::Timestamp),
    }
}

} // verus!
