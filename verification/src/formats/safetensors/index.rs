//! The index of a sharded checkpoint.
use crate::formats::safetensors::checkpoint::{insert_sorted, Checkpoint, Namespace};
use crate::formats::safetensors::header;
use crate::formats::safetensors::header::{
    format_fault, SafetensorsError, SafetensorsFault, TensorInfo,
};
use crate::json::{json_text, Json, Tree};
use crate::sequences::{lemma_lookup_found, lookup, texts};
use crate::text::{characters, has_char, same_text, strictly_sorted};
use vstd::prelude::*;
use vstd::string::*;

verus! {

/// Which file holds each tensor of a sharded checkpoint.
#[derive(Debug)]
pub struct ShardIndex {
    /// Tensor names with the names of their files.
    pub weight_map: Vec<(String, String)>,
}

impl View for ShardIndex {
    type V = Seq<(Seq<char>, Seq<char>)>;

    open spec fn view(&self) -> Seq<(Seq<char>, Seq<char>)> {
        Seq::new(
            self.weight_map@.len(),
            |i: int| (self.weight_map@[i].0@, self.weight_map@[i].1@),
        )
    }
}

/// A map from strings to strings.
pub open spec fn string_map(value: Tree) -> Option<Seq<(Seq<char>, Seq<char>)>> {
    match value {
        Tree::Object(members) => if forall|i: int|
            0 <= i < members.len() ==> (#[trigger] members[i]).1 is Text {
            Some(
                Seq::new(members.len(), |i: int| (members[i].0, members[i].1.text_or_empty())),
            )
        } else {
            None
        },
        _ => None,
    }
}

/// The weight map of an index: a member of an object, or the only item of a list.
pub open spec fn weight_map(value: Tree) -> Option<Seq<(Seq<char>, Seq<char>)>> {
    match value {
        Tree::Object(_) => string_map(value.at("weight_map"@)),
        Tree::List(items) => if items.len() == 1 {
            string_map(items[0])
        } else {
            None
        },
        _ => None,
    }
}

/// What reading the text of an index gives.
pub open spec fn index_outcome(text: Seq<char>, path: Seq<char>) -> Result<
    Seq<(Seq<char>, Seq<char>)>,
    SafetensorsFault,
> {
    match json_text(text) {
        Err(e) => Err(format_fault(path, "index: "@ + e)),
        Ok(value) => match weight_map(value) {
            Some(map) => Ok(map),
            None => Err(format_fault(path, "index: invalid weight map"@)),
        },
    }
}

fn read_map(value: &Json) -> (r: Option<ShardIndex>)
    ensures
        r matches Some(index) ==> string_map(value@) == Some(index@),
        r is None ==> string_map(value@) is None,
{
    match value {
        Json::Object(members) => {
            let ghost model = value@->Object_0;
            let mut map: Vec<(String, String)> = Vec::new();
            let mut i: usize = 0;
            while i < members.len()
                invariant
                    i <= members@.len(),
                    value@ == Tree::Object(model),
                    model.len() == members@.len(),
                    forall|k: int|
                        0 <= k < model.len() ==> #[trigger] model[k] == (
                            members@[k].0@,
                            members@[k].1@,
                        ),
                    map@.len() == i,
                    forall|k: int|
                        0 <= k < i ==> (#[trigger] model[k]).1 is Text && map@[k].0@ == model[k].0
                            && map@[k].1@ == model[k].1.text_or_empty(),
                decreases members@.len() - i,
            {
                match &members[i].1 {
                    Json::Text(file) => {
                        map.push((members[i].0.clone(), file.clone()));
                    },
                    _ => {
                        assert(model[i as int].1 !is Text);
                        return None;
                    },
                }
                i += 1;
            }
            let index: ShardIndex = ShardIndex { weight_map: map };
            proof {
                assert(string_map(value@)->Some_0 =~= index@);
            }
            Some(index)
        },
        _ => None,
    }
}

/// A file name without a directory that is not hidden.
pub open spec fn plain_name(name: Seq<char>) -> bool {
    !name.contains('/') && !name.contains('\\') && !(name.len() > 0 && name[0] == '.')
}

fn is_plain(name: &str) -> (r: bool)
    ensures
        r == plain_name(name@),
{
    let chars: Vec<char> = characters(name);
    !has_char(name, '/') && !has_char(name, '\\') && !(chars.len() > 0 && chars[0] == '.')
}

/// All files that the index names are plain.
pub open spec fn plain_files(map: Seq<(Seq<char>, Seq<char>)>) -> bool {
    forall|i: int| 0 <= i < map.len() ==> plain_name((#[trigger] map[i]).1)
}

/// The first tensor that is not in the checkpoint, or not in the file that the index names.
pub open spec fn misplaced(
    map: Seq<(Seq<char>, Seq<char>)>,
    found: Namespace,
    path: Seq<char>,
) -> Option<SafetensorsFault>
    decreases map.len(),
{
    if map.len() == 0 {
        None
    } else {
        match misplaced(map.drop_last(), found, path) {
            Some(fault) => Some(fault),
            None => {
                let (name, file) = map.last();
                match lookup(found.tensors, name) {
                    None => Some(SafetensorsFault::Missing(name)),
                    Some(span) => if found.shards[span.shard as int] != file {
                        Some(format_fault(path, name + " is not in "@ + file))
                    } else {
                        None
                    },
                }
            },
        }
    }
}

proof fn lemma_misplaced(
    map: Seq<(Seq<char>, Seq<char>)>,
    found: Namespace,
    path: Seq<char>,
    i: int,
)
    requires
        0 <= i <= map.len(),
        misplaced(map.take(i), found, path) is Some,
    ensures
        misplaced(map, found, path) == misplaced(map.take(i), found, path),
    decreases map.len() - i,
{
    if i < map.len() {
        assert(map.take(i + 1).drop_last() =~= map.take(i));
        lemma_misplaced(map, found, path, i + 1);
    } else {
        assert(map.take(i) =~= map);
    }
}

impl ShardIndex {
    /// Reads the text of the index at `path`.
    pub fn parse(text: &str, path: &str) -> (r: Result<Self, SafetensorsError>)
        ensures
            r matches Ok(index) ==> index_outcome(text@, path@) == Ok::<
                Seq<(Seq<char>, Seq<char>)>,
                SafetensorsFault,
            >(index@),
            r matches Err(e) ==> index_outcome(text@, path@) == Err::<
                Seq<(Seq<char>, Seq<char>)>,
                SafetensorsFault,
            >(e@),
    {
        let value: Json = match Json::parse(text) {
            Ok(value) => value,
            Err(e) => {
                let message: String = "index: ".to_owned().concat(e.as_str());
                return Err(header::format(path, message.as_str()));
            },
        };
        match ShardIndex::from_json(&value) {
            Some(index) => Ok(index),
            None => Err(header::format(path, "index: invalid weight map")),
        }
    }

    /// The index that a JSON value holds.
    pub fn from_json(value: &Json) -> (r: Option<Self>)
        ensures
            r matches Some(index) ==> weight_map(value@) == Some(index@),
            r is None ==> weight_map(value@) is None,
    {
        match value {
            Json::Object(_) => match value.get("weight_map") {
                Some(map) => read_map(map),
                None => None,
            },
            Json::List(items) => {
                if items.len() != 1 {
                    return None;
                }
                assert(value@->List_0[0] == items@[0]@);
                read_map(&items[0])
            },
            _ => None,
        }
    }

    /// The files to open, in order, each once.
    pub fn files(&self, path: &str) -> (r: Result<Vec<String>, SafetensorsError>)
        ensures
            r is Ok <==> plain_files(self@),
            r matches Ok(files) ==> strictly_sorted(texts(files@)) && forall|file: Seq<char>|
                texts(files@).contains(file) <==> exists|i: int|
                    0 <= i < self@.len() && (#[trigger] self@[i]).1 == file,
            r matches Err(e) ==> e@ == format_fault(
                path@,
                "shard names must be plain file names"@,
            ),
    {
        let mut files: Vec<String> = Vec::new();
        let mut i: usize = 0;
        while i < self.weight_map.len()
            invariant
                i <= self.weight_map@.len(),
                strictly_sorted(texts(files@)),
                forall|k: int| 0 <= k < i ==> plain_name((#[trigger] self@[k]).1),
                forall|file: Seq<char>| #[trigger]
                    texts(files@).contains(file) <==> exists|k: int|
                        0 <= k < i && (#[trigger] self@[k]).1 == file,
            decreases self.weight_map@.len() - i,
        {
            let ghost before = texts(files@);
            let file: &str = self.weight_map[i].1.as_str();
            assert(self@[i as int].1 == file@);
            if !is_plain(file) {
                return Err(header::format(path, "shard names must be plain file names"));
            }
            insert_sorted(&mut files, file);
            proof {
                assert forall|x: Seq<char>| #[trigger] texts(files@).contains(x) <==> exists|k:
                    int| 0 <= k < i + 1 && (#[trigger] self@[k]).1 == x by {
                    if before.contains(x) {
                        let k = choose|k: int| 0 <= k < i && (#[trigger] self@[k]).1 == x;
                        assert(self@[k].1 == x);
                    }
                }
            }
            i += 1;
        }
        Ok(files)
    }

    /// Checks that each tensor is in the file that the index names.
    pub fn check(&self, checkpoint: &Checkpoint, path: &str) -> (r: Result<(), SafetensorsError>)
        requires
            checkpoint@.valid(),
        ensures
            r is Ok ==> misplaced(self@, checkpoint@, path@) is None,
            r matches Err(e) ==> misplaced(self@, checkpoint@, path@) == Some(e@),
    {
        let ghost map = self@;
        let mut i: usize = 0;
        assert(map.take(0) =~= Seq::<(Seq<char>, Seq<char>)>::empty());
        while i < self.weight_map.len()
            invariant
                i <= self.weight_map@.len(),
                map == self@,
                checkpoint@.valid(),
                misplaced(map.take(i as int), checkpoint@, path@) is None,
            decreases self.weight_map@.len() - i,
        {
            let name: &str = self.weight_map[i].0.as_str();
            let file: &str = self.weight_map[i].1.as_str();
            proof {
                assert(map.take(i + 1).drop_last() =~= map.take(i as int));
                assert(map.take(i + 1).last() == (name@, file@));
                lemma_lookup_found(checkpoint@.tensors, name@);
            }
            let info: &TensorInfo = match checkpoint.tensor(name) {
                Ok(info) => info,
                Err(e) => {
                    proof {
                        lemma_misplaced(map, checkpoint@, path@, i + 1);
                    }
                    return Err(e);
                },
            };
            assert(checkpoint@.shards[info.shard as int] == checkpoint.shards@[info.shard as int]@);
            if !same_text(checkpoint.shards[info.shard].as_str(), file) {
                proof {
                    lemma_misplaced(map, checkpoint@, path@, i + 1);
                }
                let message: String = name.to_owned().concat(" is not in ").concat(file);
                return Err(header::format(path, message.as_str()));
            }
            i += 1;
        }
        proof {
            assert(map.take(i as int) =~= map);
        }
        Ok(())
    }
}

} // verus!
