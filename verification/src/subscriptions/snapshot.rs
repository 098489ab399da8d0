//! State snapshots for subscribers: what does not fit is cut at the front.
use crate::json::{array_text, json_items, json_value, parse_items, parse_value, texts, write_array};
use vstd::prelude::*;
use vstd::string::*;

verus! {

/// What is sent of a state's value.
#[derive(Debug)]
pub struct SnapshotPart {
    /// The value as JSON, or the end of it.
    pub data: Vec<u8>,
    /// Whether something was cut.
    pub truncated: bool,
    /// The index of the first item that is sent, where an array was cut.
    pub from_index: Option<usize>,
    /// How many items the array has, where it was cut.
    pub total_length: Option<usize>,
}

/// The text of the JSON value null.
pub open spec fn null_text() -> Seq<u8> {
    "null".spec_bytes()
}

/// The total length of the items from an index on.
pub open spec fn length_from(items: Seq<Seq<u8>>, at: int) -> nat
    decreases items.len() - at,
{
    if at >= items.len() {
        0
    } else {
        items[at].len() + length_from(items, at + 1)
    }
}

/// Whether the items from an index on are as many from the end as fit into a limit.
pub open spec fn fits_from(items: Seq<Seq<u8>>, limit: nat, at: int) -> bool {
    &&& 0 <= at <= items.len()
    &&& length_from(items, at) <= limit
    &&& at > 0 ==> length_from(items, at - 1) > limit
}

/// Whether a part is what is sent of a value under a limit: the value itself where it is
/// not larger, else the end of an array, else null.
pub open spec fn is_part(data: Seq<u8>, limit: nat, part: SnapshotPart) -> bool {
    if data.len() <= limit {
        &&& part.data@ == (match json_value(data) {
            Ok(v) => v,
            Err(_) => null_text(),
        })
        &&& !part.truncated
        &&& part.from_index is None
        &&& part.total_length is None
    } else {
        &&& part.truncated
        &&& match json_items(data) {
            Ok(items) => {
                &&& part.from_index matches Some(at) && fits_from(items, limit, at as int)
                    && part.data@ == array_text(items.skip(at as int))
                &&& part.total_length matches Some(n) && n == items.len()
            },
            Err(_) => part.data@ == null_text() && part.from_index is None
                && part.total_length is None,
        }
    }
}

fn null_bytes() -> (r: Vec<u8>)
    ensures
        r@ == null_text(),
{
    vstd::slice::slice_to_vec("null".as_bytes())
}

/// The index from which on items fit into a limit.
pub fn fitting_start(items: &Vec<Vec<u8>>, limit: usize) -> (at: usize)
    ensures
        fits_from(texts(items@), limit as nat, at as int),
{
    let ghost all = texts(items@);
    let mut at: usize = items.len();
    let mut size: usize = 0;
    while at > 0
        invariant
            all == texts(items@),
            at <= items@.len(),
            size == length_from(all, at as int),
            size <= limit,
        decreases at,
    {
        let n: usize = items[at - 1].len();
        assert(all[at - 1].len() == n);
        assert(length_from(all, at - 1) == n + size);
        if n > limit - size {
            return at;
        }
        size += n;
        at -= 1;
    }
    at
}

/// What is sent of a value under a limit.
pub fn snapshot_part(data: &[u8], limit: usize) -> (part: SnapshotPart)
    ensures
        is_part(data@, limit as nat, part),
{
    if data.len() > limit {
        match parse_items(data) {
            Ok(items) => {
                let at: usize = fitting_start(&items, limit);
                let ghost all = texts(items@);
                let mut tail: Vec<Vec<u8>> = Vec::new();
                let mut i: usize = at;
                assert(texts(tail@) =~= all.subrange(at as int, at as int));
                while i < items.len()
                    invariant
                        all == texts(items@),
                        at <= i <= items@.len(),
                        texts(tail@) == all.subrange(at as int, i as int),
                    decreases items@.len() - i,
                {
                    let ghost before = texts(tail@);
                    let item = crate::bytes::copied(&items[i]);
                    let ghost text = item@;
                    tail.push(item);
                    proof {
                        assert(texts(tail@) =~= before.push(text));
                        assert(all[i as int] == text);
                        assert(all.subrange(at as int, i + 1) =~= all.subrange(
                            at as int,
                            i as int,
                        ).push(text));
                    }
                    i += 1;
                }
                assert(texts(tail@) =~= all.skip(at as int));
                SnapshotPart {
                    data: write_array(&tail),
                    truncated: true,
                    from_index: Some(at),
                    total_length: Some(items.len()),
                }
            },
            Err(_) => SnapshotPart {
                data: null_bytes(),
                truncated: true,
                from_index: None,
                total_length: None,
            },
        }
    } else {
        let whole = match parse_value(data) {
            Ok(v) => v,
            Err(_) => null_bytes(),
        };
        SnapshotPart { data: whole, truncated: false, from_index: None, total_length: None }
    }
}

} // verus!
