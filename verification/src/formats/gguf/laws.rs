//! What holds of every GGUF header.
use crate::arith::{power_of_two, round_up};
use crate::formats::gguf::format::{
    alignment_of, catalog, countable, dimensions, directory, entries, entry, items, listing, place,
    place_all, raw, scalar, string, tensor_bytes, unsigned, Catalog, Listing, Placed, MAX_DIMS,
};
use crate::formats::gguf::value::{Datum, GgufFault};
use vstd::prelude::*;

verus! {

/// Rows of whole blocks.
pub open spec fn whole_blocks(t: Placed) -> bool {
    t.kind.layout() matches Some((block, _)) ==> t.dims[0] % (block as nat) == 0
}

/// Every listed tensor has a few dimensions.
proof fn lemma_dimension_counts(data: Seq<u8>, at: int, n: nat)
    ensures
        directory(data, at, n) matches Ok((listed, _)) ==> forall|i: int|
            0 <= i < listed.len() ==> 1 <= (#[trigger] listed[i]).dims.len() <= MAX_DIMS,
    decreases n,
{
    if n > 0 {
        lemma_dimension_counts(data, at, (n - 1) as nat);
        if let Ok((before, mid)) = directory(data, at, (n - 1) as nat) {
            if let Ok((found, _)) = listing(data, mid) {
                let (_, p1) = string(data, mid)->Ok_0;
                let (count, p2) = unsigned(data, p1, 4)->Ok_0;
                lemma_dimension_count(data, p2, count);
                assert forall|i: int| 0 <= i < before.push(found).len() implies 1 <= (
                #[trigger] before.push(found)[i]).dims.len() <= MAX_DIMS by {
                    if i < before.len() {
                        assert(before.push(found)[i] == before[i]);
                    }
                }
            }
        }
    }
}

proof fn lemma_dimension_count(data: Seq<u8>, at: int, n: nat)
    ensures
        dimensions(data, at, n) matches Ok((dims, _)) ==> dims.len() == n,
    decreases n,
{
    if n > 0 {
        lemma_dimension_count(data, at, (n - 1) as nat);
    }
}

proof fn lemma_placed(listed: Seq<Listing>, data_start: int, alignment: int, file_len: int)
    requires
        data_start >= 0,
        alignment > 0,
        forall|i: int| 0 <= i < listed.len() ==> 1 <= (#[trigger] listed[i]).dims.len() <= MAX_DIMS,
    ensures
        place_all(listed, data_start, alignment, file_len) matches Ok(tensors) ==> {
            &&& tensors.len() == listed.len()
            &&& forall|i: int|
                0 <= i < tensors.len() ==> {
                    let t = #[trigger] tensors[i];
                    &&& data_start <= t.offset
                    &&& t.offset + t.bytes <= file_len
                    &&& (t.offset - data_start) % alignment == 0
                    &&& countable(t.dims)
                    &&& 1 <= t.dims.len() <= MAX_DIMS
                    &&& whole_blocks(t)
                    &&& t.bytes == tensor_bytes(t.kind, t.dims)
                }
            &&& forall|i: int, j: int|
                0 <= i < j < tensors.len() ==> (#[trigger] tensors[i]).name != (
                #[trigger] tensors[j]).name
        },
    decreases listed.len(),
{
    if listed.len() > 0 {
        assert forall|i: int| 0 <= i < listed.drop_last().len() implies 1 <= (
        #[trigger] listed.drop_last()[i]).dims.len() <= MAX_DIMS by {
            assert(listed.drop_last()[i] == listed[i]);
        }
        lemma_placed(listed.drop_last(), data_start, alignment, file_len);
        if let Ok(tensors) = place_all(listed, data_start, alignment, file_len) {
            let before = place_all(listed.drop_last(), data_start, alignment, file_len)->Ok_0;
            let t = place(listed.last(), data_start, alignment, file_len)->Ok_0;
            assert(tensors == before.push(t));
            assert(t.offset - data_start == listed.last().offset);
            assert forall|i: int, j: int| 0 <= i < j < tensors.len() implies (
            #[trigger] tensors[i]).name != (#[trigger] tensors[j]).name by {
                if j == before.len() {
                    assert(before[i].name != t.name);
                }
            }
        }
    }
}

/// The data of every tensor lies inside the file, at an offset that the file's alignment divides, in
/// as many bytes as its type and shape take; it has one to four dimensions, and rows of whole blocks.
pub proof fn law_tensors_lie_in_the_file(data: Seq<u8>, file_len: int, i: int)
    requires
        catalog(data, file_len) is Ok,
        0 <= i < catalog(data, file_len)->Ok_0.tensors.len(),
    ensures
        ({
            let c = catalog(data, file_len)->Ok_0;
            let t = c.tensors[i];
            let alignment = alignment_of(c.metadata)->Ok_0 as int;
            &&& t.offset + t.bytes <= file_len
            &&& countable(t.dims)
            &&& 1 <= t.dims.len() <= MAX_DIMS
            &&& whole_blocks(t)
            &&& t.bytes == tensor_bytes(t.kind, t.dims)
            &&& alignment_of(c.metadata) is Ok
            &&& power_of_two(alignment)
            &&& t.offset as int % alignment == 0
        }),
{
    let pairs = unsigned(data, 16, 8)->Ok_0.0;
    let count = unsigned(data, 8, 8)->Ok_0.0;
    let (metadata, mid) = entries(data, 24, pairs)->Ok_0;
    let alignment = alignment_of(metadata)->Ok_0 as int;
    reveal_with_fuel(power_of_two, 7);
    assert(power_of_two(alignment));
    let (listed, end) = directory(data, mid, count)->Ok_0;
    lemma_positions(data, 24, pairs);
    lemma_directory_positions(data, mid, count);
    assert(round_up(end, alignment) >= 0) by (nonlinear_arith)
        requires
            end >= 0,
            alignment > 0,
            round_up(end, alignment) == (end + alignment - 1) / alignment * alignment,
    ;
    lemma_dimension_counts(data, mid, count);
    lemma_placed(listed, round_up(end, alignment), alignment, file_len);
    let t = catalog(data, file_len)->Ok_0.tensors[i];
    let start = round_up(end, alignment);
    let k = (end + alignment - 1) / alignment;
    let d = t.offset - start;
    vstd::arithmetic::div_mod::lemma_fundamental_div_mod(d, alignment);
    assert(t.offset as int == (k + d / alignment) * alignment + 0) by (nonlinear_arith)
        requires
            start == k * alignment,
            t.offset - start == d,
            d == alignment * (d / alignment) + d % alignment,
            d % alignment == 0,
    ;
    vstd::arithmetic::div_mod::lemma_fundamental_div_mod_converse(
        t.offset as int,
        alignment,
        k + d / alignment,
        0,
    );
}

proof fn lemma_item_positions(data: Seq<u8>, at: int, kind: u32, n: nat)
    requires
        at >= 0,
    ensures
        items(data, at, kind, n) matches Ok((_, end)) ==> end >= at,
    decreases n,
{
    if n > 0 {
        lemma_item_positions(data, at, kind, (n - 1) as nat);
    }
}

proof fn lemma_entry_position(data: Seq<u8>, at: int)
    requires
        at >= 0,
    ensures
        entry(data, at) matches Ok((_, end)) ==> end >= at,
{
    if let Ok((_, end)) = entry(data, at) {
        let (_, mid) = string(data, at)->Ok_0;
        let (kind, start) = unsigned(data, mid, 4)->Ok_0;
        if kind as u32 == 9 {
            let (inner, m2) = unsigned(data, start, 4)->Ok_0;
            let (len, s2) = unsigned(data, m2, 8)->Ok_0;
            lemma_item_positions(data, s2, inner as u32, len);
        }
    }
}

proof fn lemma_positions(data: Seq<u8>, at: int, n: nat)
    requires
        at >= 0,
    ensures
        entries(data, at, n) matches Ok((_, end)) ==> end >= at,
    decreases n,
{
    if n > 0 {
        lemma_positions(data, at, (n - 1) as nat);
        if let Ok((_, mid)) = entries(data, at, (n - 1) as nat) {
            lemma_entry_position(data, mid);
        }
    }
}

proof fn lemma_dimension_positions(data: Seq<u8>, at: int, n: nat)
    requires
        at >= 0,
    ensures
        dimensions(data, at, n) matches Ok((_, end)) ==> end >= at,
    decreases n,
{
    if n > 0 {
        lemma_dimension_positions(data, at, (n - 1) as nat);
    }
}

proof fn lemma_directory_positions(data: Seq<u8>, at: int, n: nat)
    requires
        at >= 0,
    ensures
        directory(data, at, n) matches Ok((_, end)) ==> end >= at,
    decreases n,
{
    if n > 0 {
        lemma_directory_positions(data, at, (n - 1) as nat);
        if let Ok((_, mid)) = directory(data, at, (n - 1) as nat) {
            if let Ok((_, end)) = listing(data, mid) {
                let (_, p1) = string(data, mid)->Ok_0;
                let (dims, p2) = unsigned(data, p1, 4)->Ok_0;
                lemma_dimension_positions(data, p2, dims);
            }
        }
    }
}

/// No two tensors have the same name.
pub proof fn law_tensor_names_are_unique(data: Seq<u8>, file_len: int, i: int, j: int)
    requires
        catalog(data, file_len) is Ok,
        0 <= i < j < catalog(data, file_len)->Ok_0.tensors.len(),
    ensures
        catalog(data, file_len)->Ok_0.tensors[i].name
            != catalog(data, file_len)->Ok_0.tensors[j].name,
{
    let pairs = unsigned(data, 16, 8)->Ok_0.0;
    let count = unsigned(data, 8, 8)->Ok_0.0;
    let (metadata, mid) = entries(data, 24, pairs)->Ok_0;
    let alignment = alignment_of(metadata)->Ok_0 as int;
    reveal_with_fuel(power_of_two, 7);
    let (listed, end) = directory(data, mid, count)->Ok_0;
    lemma_names(listed, round_up(end, alignment), alignment, file_len);
}

proof fn lemma_names(listed: Seq<Listing>, data_start: int, alignment: int, file_len: int)
    ensures
        place_all(listed, data_start, alignment, file_len) matches Ok(tensors) ==> forall|
            i: int,
            j: int,
        |
            0 <= i < j < tensors.len() ==> (#[trigger] tensors[i]).name != (
            #[trigger] tensors[j]).name,
    decreases listed.len(),
{
    if listed.len() > 0 {
        lemma_names(listed.drop_last(), data_start, alignment, file_len);
        if let Ok(tensors) = place_all(listed, data_start, alignment, file_len) {
            let before = place_all(listed.drop_last(), data_start, alignment, file_len)->Ok_0;
            let t = place(listed.last(), data_start, alignment, file_len)->Ok_0;
            assert forall|i: int, j: int| 0 <= i < j < tensors.len() implies (
            #[trigger] tensors[i]).name != (#[trigger] tensors[j]).name by {
                if j == before.len() {
                    assert(before[i].name != t.name);
                }
            }
        }
    }
}

proof fn lemma_keys(data: Seq<u8>, at: int, n: nat)
    ensures
        entries(data, at, n) matches Ok((found, _)) ==> found.len() == n && forall|i: int, j: int|
            0 <= i < j < found.len() ==> (#[trigger] found[i]).0 != (#[trigger] found[j]).0,
    decreases n,
{
    if n > 0 {
        lemma_keys(data, at, (n - 1) as nat);
        if let Ok((found, _)) = entries(data, at, n) {
            let (before, mid) = entries(data, at, (n - 1) as nat)->Ok_0;
            let (one, _) = entry(data, mid)->Ok_0;
            assert forall|i: int, j: int| 0 <= i < j < found.len() implies (#[trigger] found[i]).0
                != (#[trigger] found[j]).0 by {
                if j == before.len() {
                    assert(before[i].0 != one.0);
                }
            }
        }
    }
}

/// No two metadata entries have the same key.
pub proof fn law_metadata_keys_are_unique(data: Seq<u8>, file_len: int, i: int, j: int)
    requires
        catalog(data, file_len) is Ok,
        0 <= i < j < catalog(data, file_len)->Ok_0.metadata.len(),
    ensures
        catalog(data, file_len)->Ok_0.metadata[i].0
            != catalog(data, file_len)->Ok_0.metadata[j].0,
{
    lemma_keys(data, 24, unsigned(data, 16, 8)->Ok_0.0);
}

/// `more` starts with `data`.
spec fn starts(more: Seq<u8>, data: Seq<u8>) -> bool {
    data.len() <= more.len() && more.take(data.len() as int) == data
}

proof fn lemma_raw_extends(data: Seq<u8>, more: Seq<u8>, at: int, n: int)
    requires
        starts(more, data),
        0 <= at <= data.len(),
        n >= 0,
    ensures
        raw(data, at, n) == raw(more, at, n) || raw(data, at, n) == Err::<
            (Seq<u8>, int),
            GgufFault,
        >(GgufFault::Truncated),
        raw(data, at, n) matches Ok((_, end)) ==> at <= end <= data.len(),
{
    if at + n <= data.len() {
        let (a, b) = (data.subrange(at, at + n), more.subrange(at, at + n));
        assert forall|i: int| 0 <= i < n implies #[trigger] a[i] == b[i] by {
            assert(more.take(data.len() as int)[at + i] == more[at + i]);
        }
        assert(a =~= b);
    }
}

proof fn lemma_string_extends(data: Seq<u8>, more: Seq<u8>, at: int)
    requires
        starts(more, data),
        0 <= at <= data.len(),
    ensures
        string(data, at) == string(more, at) || string(data, at) == Err::<
            (Seq<char>, int),
            GgufFault,
        >(GgufFault::Truncated),
        string(data, at) matches Ok((_, end)) ==> at <= end <= data.len(),
{
    lemma_raw_extends(data, more, at, 8);
    if let Ok((len, start)) = unsigned(data, at, 8) {
        lemma_raw_extends(data, more, start, len as int);
    }
}

proof fn lemma_scalar_extends(data: Seq<u8>, more: Seq<u8>, at: int, kind: u32)
    requires
        starts(more, data),
        0 <= at <= data.len(),
    ensures
        scalar(data, at, kind) == scalar(more, at, kind) || scalar(data, at, kind) == Err::<
            (Datum, int),
            GgufFault,
        >(GgufFault::Truncated),
        scalar(data, at, kind) matches Ok((_, end)) ==> at <= end <= data.len(),
{
    lemma_string_extends(data, more, at);
    lemma_raw_extends(data, more, at, 1);
    lemma_raw_extends(data, more, at, 2);
    lemma_raw_extends(data, more, at, 4);
    lemma_raw_extends(data, more, at, 8);
}

proof fn lemma_items_extend(data: Seq<u8>, more: Seq<u8>, at: int, kind: u32, n: nat)
    requires
        starts(more, data),
        0 <= at <= data.len(),
    ensures
        items(data, at, kind, n) == items(more, at, kind, n) || items(data, at, kind, n) == Err::<
            (Seq<Datum>, int),
            GgufFault,
        >(GgufFault::Truncated),
        items(data, at, kind, n) matches Ok((_, end)) ==> at <= end <= data.len(),
    decreases n,
{
    if n > 0 {
        lemma_items_extend(data, more, at, kind, (n - 1) as nat);
        if let Ok((_, mid)) = items(data, at, kind, (n - 1) as nat) {
            lemma_scalar_extends(data, more, mid, kind);
        }
    }
}

proof fn lemma_entry_extends(data: Seq<u8>, more: Seq<u8>, at: int)
    requires
        starts(more, data),
        0 <= at <= data.len(),
    ensures
        entry(data, at) == entry(more, at) || entry(data, at) == Err::<
            ((Seq<char>, Datum), int),
            GgufFault,
        >(GgufFault::Truncated),
        entry(data, at) matches Ok((_, end)) ==> at <= end <= data.len(),
{
    lemma_string_extends(data, more, at);
    if let Ok((_, mid)) = string(data, at) {
        lemma_raw_extends(data, more, mid, 4);
        if let Ok((kind, start)) = unsigned(data, mid, 4) {
            lemma_scalar_extends(data, more, start, kind as u32);
            lemma_raw_extends(data, more, start, 4);
            if let Ok((inner, m2)) = unsigned(data, start, 4) {
                lemma_raw_extends(data, more, m2, 8);
                if let Ok((len, s2)) = unsigned(data, m2, 8) {
                    lemma_items_extend(data, more, s2, inner as u32, len);
                }
            }
        }
    }
}

proof fn lemma_entries_extend(data: Seq<u8>, more: Seq<u8>, at: int, n: nat)
    requires
        starts(more, data),
        0 <= at <= data.len(),
    ensures
        entries(data, at, n) == entries(more, at, n) || entries(data, at, n) == Err::<
            (Seq<(Seq<char>, Datum)>, int),
            GgufFault,
        >(GgufFault::Truncated),
        entries(data, at, n) matches Ok((_, end)) ==> at <= end <= data.len(),
    decreases n,
{
    if n > 0 {
        lemma_entries_extend(data, more, at, (n - 1) as nat);
        if let Ok((_, mid)) = entries(data, at, (n - 1) as nat) {
            lemma_entry_extends(data, more, mid);
        }
    }
}

proof fn lemma_dimensions_extend(data: Seq<u8>, more: Seq<u8>, at: int, n: nat)
    requires
        starts(more, data),
        0 <= at <= data.len(),
    ensures
        dimensions(data, at, n) == dimensions(more, at, n) || dimensions(data, at, n) == Err::<
            (Seq<nat>, int),
            GgufFault,
        >(GgufFault::Truncated),
        dimensions(data, at, n) matches Ok((_, end)) ==> at <= end <= data.len(),
    decreases n,
{
    if n > 0 {
        lemma_dimensions_extend(data, more, at, (n - 1) as nat);
        if let Ok((_, mid)) = dimensions(data, at, (n - 1) as nat) {
            lemma_raw_extends(data, more, mid, 8);
        }
    }
}

proof fn lemma_directory_extends(data: Seq<u8>, more: Seq<u8>, at: int, n: nat)
    requires
        starts(more, data),
        0 <= at <= data.len(),
    ensures
        directory(data, at, n) == directory(more, at, n) || directory(data, at, n) == Err::<
            (Seq<Listing>, int),
            GgufFault,
        >(GgufFault::Truncated),
        directory(data, at, n) matches Ok((_, end)) ==> at <= end <= data.len(),
    decreases n,
{
    if n > 0 {
        lemma_directory_extends(data, more, at, (n - 1) as nat);
        if let Ok((_, mid)) = directory(data, at, (n - 1) as nat) {
            lemma_string_extends(data, more, mid);
            if let Ok((_, p1)) = string(data, mid) {
                lemma_raw_extends(data, more, p1, 4);
                if let Ok((dims, p2)) = unsigned(data, p1, 4) {
                    lemma_dimensions_extend(data, more, p2, dims);
                    if let Ok((_, p3)) = dimensions(data, p2, dims) {
                        lemma_raw_extends(data, more, p3, 4);
                        if let Ok((_, p4)) = unsigned(data, p3, 4) {
                            lemma_raw_extends(data, more, p4, 8);
                        }
                    }
                }
            }
        }
    }
}

/// A header is read from the front: where part of a file gives anything but
/// [`GgufFault::Truncated`], the whole file gives the same.
pub proof fn law_a_longer_head_reads_the_same(data: Seq<u8>, more: Seq<u8>, file_len: int)
    requires
        data.len() <= more.len(),
        more.take(data.len() as int) == data,
        catalog(data, file_len) != Err::<Catalog, GgufFault>(GgufFault::Truncated),
    ensures
        catalog(more, file_len) == catalog(data, file_len),
{
    lemma_raw_extends(data, more, 0, 4);
    if raw(data, 0, 4) is Ok {
        lemma_raw_extends(data, more, 4, 4);
        if raw(data, 4, 4) is Ok {
            lemma_raw_extends(data, more, 8, 8);
            if raw(data, 8, 8) is Ok {
                lemma_raw_extends(data, more, 16, 8);
                if let Ok((pairs, _)) = unsigned(data, 16, 8) {
                    lemma_entries_extend(data, more, 24, pairs);
                    if let Ok((_, mid)) = entries(data, 24, pairs) {
                        lemma_directory_extends(data, more, mid, unsigned(data, 8, 8)->Ok_0.0);
                    }
                }
            }
        }
    }
}

} // verus!
