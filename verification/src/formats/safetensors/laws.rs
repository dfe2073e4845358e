//! What holds of every checkpoint.
use crate::arith::product;
use crate::formats::safetensors::checkpoint::{add_members, add_outcome, filled, Namespace};
use crate::formats::safetensors::header::{
    entry_parts, raw_entry, shape_of, size_value, tensor_outcome, Dtype, Span,
};
use crate::formats::safetensors::index::misplaced;
use crate::json::{json_members, Tree};
use crate::sequences::{lemma_lookup_found, lookup};
use vstd::prelude::*;
use vstd::string::*;

verus! {

/// A tensor's bytes lie in a file of `end` bytes and are as many as its shape and type take.
pub open spec fn sound(span: Span, end: nat) -> bool {
    &&& span.offset + span.len <= end
    &&& filled(span)
}

proof fn lemma_add_members(
    known: Seq<(Seq<char>, Span)>,
    members: Seq<(Seq<char>, Tree)>,
    data_start: nat,
    data_len: nat,
    shard: nat,
)
    requires
        forall|i: int, j: int|
            0 <= i < j < known.len() ==> (#[trigger] known[i]).0 != (#[trigger] known[j]).0,
    ensures
        add_members(known, members, data_start, data_len, shard) matches Ok(all) ==> {
            &&& known.len() <= all.len()
            &&& all.take(known.len() as int) == known
            &&& forall|i: int, j: int|
                0 <= i < j < all.len() ==> (#[trigger] all[i]).0 != (#[trigger] all[j]).0
            &&& forall|i: int|
                known.len() <= i < all.len() ==> (#[trigger] all[i]).1.shard == shard && sound(
                    all[i].1,
                    data_start + data_len,
                )
        },
    decreases members.len(),
{
    if members.len() == 0 {
        assert(known.take(known.len() as int) =~= known);
    } else {
        lemma_add_members(known, members.drop_last(), data_start, data_len, shard);
        if let Ok(all) = add_members(known, members, data_start, data_len, shard) {
            let before = add_members(
                known,
                members.drop_last(),
                data_start,
                data_len,
                shard,
            )->Ok_0;
            let name = members.last().0;
            if name != "__metadata__"@ {
                lemma_lookup_found(before, name);
                assert forall|i: int, j: int| 0 <= i < j < all.len() implies (#[trigger] all[i]).0
                    != (#[trigger] all[j]).0 by {
                    if j == before.len() {
                        assert(before[i].0 != name);
                    }
                }
                assert(all.take(known.len() as int) =~= before.take(known.len() as int));
            }
        }
    }
}

/// Adding a file keeps every tensor as it was, keeps names unique and every tensor in one of
/// the files, and places each added tensor inside the added file, in as many bytes as its shape
/// and type take.
pub proof fn law_adding_a_file_extends_the_namespace(
    before: Namespace,
    path: Seq<char>,
    head: Seq<u8>,
    file_len: nat,
)
    requires
        before.valid(),
        8 + head.len() <= file_len,
        add_outcome(before, path, head, file_len) is Ok,
    ensures
        ({
            let after = add_outcome(before, path, head, file_len)->Ok_0;
            &&& after.valid()
            &&& after.shards == before.shards.push(path)
            &&& before.tensors.len() <= after.tensors.len()
            &&& after.tensors.take(before.tensors.len() as int) == before.tensors
            &&& forall|i: int|
                before.tensors.len() <= i < after.tensors.len() ==> (
                #[trigger] after.tensors[i]).1.shard == before.shards.len() && sound(
                    after.tensors[i].1,
                    file_len,
                )
        }),
{
    let after = add_outcome(before, path, head, file_len)->Ok_0;
    lemma_add_members(
        before.tensors,
        json_members(head)->Ok_0,
        (8 + head.len()) as nat,
        (file_len - 8 - head.len()) as nat,
        before.shards.len(),
    );
    assert forall|i: int| 0 <= i < after.tensors.len() implies (#[trigger] after.tensors[i]).1.shard
        < after.shards.len() && filled(after.tensors[i].1) by {
        if i < before.tensors.len() {
            assert(after.tensors.take(before.tensors.len() as int)[i] == before.tensors[i]);
        }
    }
}

/// Every tensor of a checkpoint, of however many files, has as many bytes as its shape and type
/// take, in one of the files.
pub proof fn law_tensors_have_the_size_of_their_shape(found: Namespace, name: Seq<char>)
    requires
        found.valid(),
    ensures
        lookup(found.tensors, name) matches Some(span) ==> span.len == product(span.shape)
            * span.dtype.width() && span.shard < found.shards.len(),
{
    lemma_lookup_found(found.tensors, name);
}

/// A checkpoint that agrees with its index holds every tensor of the index in the file that the
/// index names.
pub proof fn law_indexed_tensors_are_in_their_files(
    map: Seq<(Seq<char>, Seq<char>)>,
    found: Namespace,
    path: Seq<char>,
    i: int,
)
    requires
        misplaced(map, found, path) is None,
        0 <= i < map.len(),
    ensures
        lookup(found.tensors, map[i].0) matches Some(span) && found.shards[span.shard as int]
            == map[i].1,
    decreases map.len(),
{
    if i < map.len() - 1 {
        law_indexed_tensors_are_in_their_files(map.drop_last(), found, path, i);
    }
}

// ---------------------------------------------------------------------------------------------
// Headers
// ---------------------------------------------------------------------------------------------

/// The name of a type in a header, and the bytes of one of its elements.
pub open spec fn is_type(dtype: Dtype, name: Seq<char>, size: nat) -> bool {
    match dtype {
        Dtype::F32 => name == "F32"@ && size == 4,
        Dtype::F16 => name == "F16"@ && size == 2,
        Dtype::BF16 => name == "BF16"@ && size == 2,
        Dtype::I64 => name == "I64"@ && size == 8,
        Dtype::I32 => name == "I32"@ && size == 4,
        Dtype::U8 => name == "U8"@ && size == 1,
        Dtype::Bool => name == "BOOL"@ && size == 1,
    }
}

/// A header entry describes a tensor by its type, its shape, and where its bytes begin and end in the
/// data that follows the header.
pub open spec fn describes(
    dtype: Tree,
    shape: Tree,
    offsets: Tree,
    data_start: nat,
    span: Span,
) -> bool {
    &&& dtype is Text && is_type(span.dtype, dtype->Text_0, span.dtype.width())
    &&& shape is List && shape->List_0.len() == span.shape.len()
    &&& forall|i: int|
        0 <= i < span.shape.len() ==> #[trigger] shape->List_0[i] == Tree::Unsigned(
            span.shape[i] as u64,
        )
    &&& forall|i: int| 0 <= i < span.shape.len() ==> #[trigger] span.shape[i] <= u64::MAX
    &&& offsets is List && offsets->List_0.len() == 2 && offsets->List_0[0] is Unsigned
        && offsets->List_0[1] is Unsigned
    &&& span.offset == data_start + offsets->List_0[0]->Unsigned_0
    &&& span.len == offsets->List_0[1]->Unsigned_0 - offsets->List_0[0]->Unsigned_0
}

/// A tensor is where its entry of the header says: by the names of its parts, or by their order.
pub proof fn law_tensors_are_as_their_entries_say(
    name: Seq<char>,
    value: Tree,
    data_start: nat,
    data_len: nat,
    shard: nat,
)
    ensures
        tensor_outcome(name, value, data_start, data_len, shard) matches Ok(span) ==> {
            &&& span.shard == shard
            &&& span.offset + span.len <= data_start + data_len
            &&& match value {
                Tree::Object(_) => describes(
                    value.at("dtype"@),
                    value.at("shape"@),
                    value.at("data_offsets"@),
                    data_start,
                    span,
                ),
                Tree::List(parts) => parts.len() == 3 && describes(
                    parts[0],
                    parts[1],
                    parts[2],
                    data_start,
                    span,
                ),
                _ => false,
            }
        },
{
    if let Ok(span) = tensor_outcome(name, value, data_start, data_len, shard) {
        let (dtype, shape, offsets) = entry_parts(value)->Some_0;
        let raw = raw_entry(value)->Some_0;
        assert(dtype == Tree::Text(raw.dtype));
        assert(is_type(span.dtype, raw.dtype, span.dtype.width()));
        assert(shape_of(shape) == Some(span.shape));
        let items = shape->List_0;
        assert forall|i: int| 0 <= i < span.shape.len() implies #[trigger] items[i]
            == Tree::Unsigned(span.shape[i] as u64) by {
            assert(size_value(items[i]) is Some);
        }
        assert forall|i: int| 0 <= i < span.shape.len() implies #[trigger] span.shape[i]
            <= u64::MAX by {
            assert(size_value(items[i]) is Some);
        }
        assert(describes(dtype, shape, offsets, data_start, span));
    }
}

/// The tensor is a member of the header, as its entry says.
pub open spec fn is_member(
    tensor: (Seq<char>, Span),
    members: Seq<(Seq<char>, Tree)>,
    data_start: nat,
    data_len: nat,
    shard: nat,
) -> bool {
    exists|m: int|
        0 <= m < members.len() && (#[trigger] members[m]).0 == tensor.0 && tensor_outcome(
            tensor.0,
            members[m].1,
            data_start,
            data_len,
            shard,
        ) == Ok::<Span, Seq<char>>(tensor.1)
}

/// A tensor has this name.
pub open spec fn lists(tensors: Seq<(Seq<char>, Span)>, name: Seq<char>) -> bool {
    exists|i: int| 0 <= i < tensors.len() && (#[trigger] tensors[i]).0 == name
}

proof fn lemma_added_members(
    known: Seq<(Seq<char>, Span)>,
    members: Seq<(Seq<char>, Tree)>,
    data_start: nat,
    data_len: nat,
    shard: nat,
)
    ensures
        add_members(known, members, data_start, data_len, shard) matches Ok(all) ==> {
            &&& known.len() <= all.len() && all.take(known.len() as int) == known
            &&& forall|i: int|
                known.len() <= i < all.len() ==> is_member(
                    #[trigger] all[i],
                    members,
                    data_start,
                    data_len,
                    shard,
                )
            &&& forall|m: int|
                0 <= m < members.len() && (#[trigger] members[m]).0 != "__metadata__"@ ==> lists(
                    all,
                    members[m].0,
                )
        },
    decreases members.len(),
{
    if members.len() == 0 {
        assert(known.take(known.len() as int) =~= known);
    } else {
        let rest = members.drop_last();
        lemma_added_members(known, rest, data_start, data_len, shard);
        if let Ok(all) = add_members(known, members, data_start, data_len, shard) {
            let before = add_members(known, rest, data_start, data_len, shard)->Ok_0;
            assert(all.take(known.len() as int) =~= before.take(known.len() as int));
            assert forall|i: int| known.len() <= i < all.len() implies is_member(
                #[trigger] all[i],
                members,
                data_start,
                data_len,
                shard,
            ) by {
                if i < before.len() {
                    assert(is_member(before[i], rest, data_start, data_len, shard));
                    let m = choose|m: int|
                        0 <= m < rest.len() && (#[trigger] rest[m]).0 == before[i].0
                            && tensor_outcome(
                            before[i].0,
                            rest[m].1,
                            data_start,
                            data_len,
                            shard,
                        ) == Ok::<Span, Seq<char>>(before[i].1);
                    assert(members[m] == rest[m]);
                    assert(all[i] == before[i]);
                } else {
                    assert(members[members.len() - 1] == members.last());
                }
            }
            assert forall|m: int|
                0 <= m < members.len() && (#[trigger] members[m]).0 != "__metadata__"@ implies lists(
                all,
                members[m].0,
            ) by {
                if m < rest.len() {
                    assert(rest[m] == members[m]);
                    assert(lists(before, rest[m].0));
                    let i = choose|i: int|
                        0 <= i < before.len() && (#[trigger] before[i]).0 == rest[m].0;
                    assert(all[i] == before[i]);
                } else {
                    assert(all[before.len() as int].0 == members[m].0);
                }
            }
        }
    }
}

/// A file adds the tensors of its own header, all of them and no others: each by the name of its
/// member, and as its entry says.
pub proof fn law_files_add_the_tensors_of_their_header(
    before: Namespace,
    path: Seq<char>,
    head: Seq<u8>,
    file_len: nat,
)
    requires
        8 + head.len() <= file_len,
    ensures
        add_outcome(before, path, head, file_len) matches Ok(after) ==> {
            let members = json_members(head)->Ok_0;
            let n = before.tensors.len() as int;
            &&& json_members(head) is Ok
            &&& forall|i: int|
                n <= i < after.tensors.len() ==> is_member(
                    #[trigger] after.tensors[i],
                    members,
                    (8 + head.len()) as nat,
                    (file_len - 8 - head.len()) as nat,
                    before.shards.len(),
                )
            &&& forall|m: int|
                0 <= m < members.len() && (#[trigger] members[m]).0 != "__metadata__"@ ==> lists(
                    after.tensors,
                    members[m].0,
                )
        },
{
    if json_members(head) is Ok {
        lemma_added_members(
            before.tensors,
            json_members(head)->Ok_0,
            (8 + head.len()) as nat,
            (file_len - 8 - head.len()) as nat,
            before.shards.len(),
        );
    }
}

} // verus!
