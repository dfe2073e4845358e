//! What operators and clients of the server can rely on.
use crate::error::ErrorModel;
use crate::json::Tree;
use crate::sequences::lookup;
use crate::server::access::{access, comma, key_protocol, protocol_key, refusal};
use crate::server::answers::{generation_fault, read_fault};
use crate::server::error::{detail, ApiFault};
use crate::server::services::{listed, listing, AppState};
use crate::server::settings::{
    filled, joined_path, merged, resolved, without_slashes, File, Given, SettingsModel,
};
use crate::text::{has_prefix, text_in, trim};
use vstd::prelude::*;
use vstd::string::*;

verus! {

// ---------------------------------------------------------------------------------------------
// Settings
// ---------------------------------------------------------------------------------------------

/// A setting that nothing else gave is the file's where the file has one, and stays as it was
/// otherwise.
pub open spec fn takes<T>(was: T, file: Option<T>, given: bool, now: T) -> bool {
    &&& !given && file is Some ==> now == file->Some_0
    &&& given || file is None ==> now == was
}

/// An optional setting, as [`takes`].
pub open spec fn takes_text(
    was: Option<Seq<char>>,
    file: Option<String>,
    given: bool,
    now: Option<Seq<char>>,
) -> bool {
    &&& !given && file is Some ==> now == Some(file->Some_0@)
    &&& given || file is None ==> now == was
}

/// A path, as [`takes`]: the file's is resolved.
pub open spec fn takes_path(
    was: Option<Seq<char>>,
    file: Option<String>,
    given: bool,
    now: Option<Seq<char>>,
    base: Seq<char>,
    home: Option<Seq<char>>,
) -> bool {
    &&& !given && file is Some ==> now == Some(resolved(file->Some_0@, base, home))
    &&& given || file is None ==> now == was
}

/// A switch that turns off what the file turns on, as [`takes`].
pub open spec fn takes_off(was: bool, file: Option<bool>, given: bool, now: bool) -> bool {
    &&& !given && file is Some ==> now == !file->Some_0
    &&& given || file is None ==> now == was
}

/// Every setting of the file is taken under its own name, unless a flag or the environment gave it;
/// what the file leaves out stays as it was.
pub proof fn law_settings_of_the_file_fill_the_rest(
    was: SettingsModel,
    file: File,
    base: Seq<char>,
    home: Option<Seq<char>>,
    given: Given,
)
    ensures
        ({
            let now = filled(was, file, base, home, given);
            &&& now.config == was.config
            &&& takes_path(was.model, file.model, given.model, now.model, base, home)
            &&& takes_path(was.mmproj, file.mmproj, given.mmproj, now.mmproj, base, home)
            &&& takes_path(
                was.speech_model,
                file.speech_model,
                given.speech_model,
                now.speech_model,
                base,
                home,
            )
            &&& takes(was.arch, text_in(file.arch), given.arch, now.arch)
            &&& takes(was.bind, text_in(file.bind), given.bind, now.bind)
            &&& takes_text(was.model_id, file.model_id, given.model_id, now.model_id)
            &&& takes_text(
                was.speech_model_id,
                file.speech_model_id,
                given.speech_model_id,
                now.speech_model_id,
            )
            &&& takes_text(was.api_key, file.api_key, given.api_key, now.api_key)
            &&& takes(was.main_gpu, file.main_gpu, given.main_gpu, now.main_gpu)
            &&& takes(was.context_size, file.context_size, given.context_size, now.context_size)
            &&& takes(was.batch_size, file.batch_size, given.batch_size, now.batch_size)
            &&& takes(was.seed, file.seed, given.seed, now.seed)
            &&& takes(
                was.queue_capacity,
                file.queue_capacity,
                given.queue_capacity,
                now.queue_capacity,
            )
            &&& takes(
                was.speech_queue_capacity,
                file.speech_queue_capacity,
                given.speech_queue_capacity,
                now.speech_queue_capacity,
            )
            &&& takes_off(
                was.no_prompt_cache,
                file.prompt_cache,
                given.no_prompt_cache,
                now.no_prompt_cache,
            )
            &&& takes_off(was.no_realtime, file.realtime, given.no_realtime, now.no_realtime)
        }),
{
    reveal(merged);
}

proof fn lemma_slashes(text: Seq<char>, n: int)
    requires
        0 <= n <= text.len(),
        forall|i: int| 0 <= i < n ==> #[trigger] text[i] == '/',
        n == text.len() || text[n] != '/',
    ensures
        without_slashes(text) == text.skip(n),
    decreases n,
{
    if n > 0 {
        let rest = text.drop_first();
        assert forall|i: int| 0 <= i < n - 1 implies #[trigger] rest[i] == '/' by {
            assert(rest[i] == text[i + 1]);
        }
        lemma_slashes(rest, n - 1);
        assert(rest.skip(n - 1) =~= text.skip(n));
    } else {
        assert(text.skip(0) =~= text);
    }
}

/// A path below the home directory is resolved from it, however many slashes follow the tilde; one
/// from the root stays as it is; any other is resolved from the directory of the file. What is
/// resolved follows the directory after one slash.
pub proof fn law_paths_are_resolved(
    path: Seq<char>,
    base: Seq<char>,
    home: Seq<char>,
    rest: Seq<char>,
    n: int,
)
    requires
        base.len() > 0 && base[base.len() - 1] != '/',
        home.len() > 0 && home[home.len() - 1] != '/',
        rest.len() > 0 && rest[0] != '/',
    ensures
        // Below the home directory.
        n > 0 && path.len() == 1 + n + rest.len() && path[0] == '~' && (forall|i: int|
            1 <= i <= n ==> #[trigger] path[i] == '/') && path.skip(1 + n) == rest ==> resolved(
            path,
            base,
            Some(home),
        ) == home + seq!['/'] + rest,
        // From the root.
        path.len() > 0 && path[0] == '/' ==> resolved(path, base, Some(home)) == path && resolved(
            path,
            base,
            None,
        ) == path,
        // From the directory of the file.
        rest[0] != '~' ==> resolved(rest, base, Some(home)) == base + seq!['/'] + rest,
        resolved(rest, base, None) == base + seq!['/'] + rest,
        // What is joined.
        joined_path(base, rest) == base + seq!['/'] + rest,
        joined_path(base.push('/'), rest) == base + seq!['/'] + rest,
{
    assert(base.push('/') + rest =~= base + seq!['/'] + rest);
    if n > 0 && path.len() == 1 + n + rest.len() && path[0] == '~' && (forall|i: int|
        1 <= i <= n ==> #[trigger] path[i] == '/') && path.skip(1 + n) == rest {
        let tail = path.drop_first();
        assert forall|i: int| 0 <= i < n implies #[trigger] tail[i] == '/' by {
            assert(tail[i] == path[i + 1]);
        }
        assert(tail[n] == path.skip(1 + n)[0]);
        lemma_slashes(tail, n);
        assert(tail.skip(n) =~= path.skip(1 + n));
        assert(path[1] == '/');
    }
}

// ---------------------------------------------------------------------------------------------
// Access
// ---------------------------------------------------------------------------------------------

/// An item of a list that commas divide, from `a` to `b`.
pub open spec fn is_item(list: Seq<char>, a: int, b: int) -> bool {
    &&& 0 <= a <= b <= list.len()
    &&& a == 0 || list[a - 1] == ','
    &&& b == list.len() || list[b] == ','
    &&& forall|i: int| a <= i < b ==> #[trigger] list[i] != ','
}

/// The item carries the key, after the space around it and the name of the protocol.
pub open spec fn carries(list: Seq<char>, a: int, b: int, key: Seq<char>) -> bool {
    is_item(list, a, b) && trim(list.subrange(a, b)) == "openai-insecure-api-key."@ + key
}

/// The item carries the key, and none between `at` and it carries one.
pub open spec fn carries_first(list: Seq<char>, at: int, a: int, b: int, key: Seq<char>) -> bool {
    &&& at <= a
    &&& carries(list, a, b, key)
    &&& forall|x: int, y: int, k: Seq<char>| at <= x < a ==> !#[trigger] carries(list, x, y, k)
}

/// What the items from `at` on carry: the key of the first that carries one, or nothing.
pub open spec fn is_key(list: Seq<char>, at: int, found: Option<Seq<char>>) -> bool {
    &&& found is Some ==> exists|a: int, b: int|
        #![trigger is_item(list, a, b)]
        is_item(list, a, b) && carries_first(list, at, a, b, found->Some_0)
    &&& found is None ==> forall|x: int, y: int, k: Seq<char>|
        at <= x ==> !#[trigger] carries(list, x, y, k)
}

proof fn lemma_comma(text: Seq<char>)
    ensures
        comma(text) <= text.len(),
        forall|i: int| 0 <= i < comma(text) ==> #[trigger] text[i] != ',',
        comma(text) < text.len() ==> text[comma(text) as int] == ',',
    decreases text.len(),
{
    if text.len() > 0 && text[0] != ',' {
        let rest = text.drop_first();
        lemma_comma(rest);
        assert forall|i: int| 0 <= i < comma(text) implies #[trigger] text[i] != ',' by {
            if i > 0 {
                assert(rest[i - 1] == text[i]);
            }
        }
        if comma(text) < text.len() {
            assert(rest[comma(rest) as int] == text[comma(text) as int]);
        }
    }
}

proof fn lemma_is_key(list: Seq<char>, at: int, a: int, b: int, key: Seq<char>)
    requires
        carries_first(list, at, a, b, key),
    ensures
        is_key(list, at, Some(key)),
{
    assert(is_item(list, a, b));
}

proof fn lemma_protocol_key(list: Seq<char>, at: int)
    requires
        0 <= at <= list.len(),
        at == 0 || list[at - 1] == ',',
    ensures
        is_key(list, at, protocol_key(list.skip(at))),
    decreases list.len() - at,
{
    let part = list.skip(at);
    let n = comma(part) as int;
    lemma_comma(part);
    let b = at + n;
    assert(part.take(n) =~= list.subrange(at, b));
    assert forall|i: int| at <= i < b implies #[trigger] list[i] != ',' by {
        assert(part[i - at] == list[i]);
    }
    if b < list.len() {
        assert(part[n] == list[b]);
    }
    assert(is_item(list, at, b));
    let item = trim(part.take(n));
    let name = key_protocol();
    // Items from here on start here or after the comma.
    assert forall|x: int, y: int, k: Seq<char>| at <= x && #[trigger] carries(list, x, y, k) implies (x
        == at && y == b) || b < x by {
        if x == at {
            if y < b {
                assert(list[y] != ',');
            } else if b < y {
                assert(list[b] != ',');
            }
        } else if x <= b {
            assert(list[x - 1] != ',');
        }
    }
    if has_prefix(item, name) {
        let key = item.skip(name.len() as int);
        assert(item =~= name + key);
        assert(carries_first(list, at, at, b, key));
        assert(protocol_key(part) == Some(key));
        lemma_is_key(list, at, at, b, key);
    } else {
        assert forall|y: int, k: Seq<char>| !#[trigger] carries(list, at, y, k) by {
            if carries(list, at, y, k) {
                assert(y == b);
                assert((name + k).take(name.len() as int) =~= name);
            }
        }
        if n < part.len() {
            assert(part.skip(n + 1) =~= list.skip(b + 1));
            assert(protocol_key(part) == protocol_key(list.skip(b + 1)));
            lemma_protocol_key(list, b + 1);
            match protocol_key(list.skip(b + 1)) {
                Some(key) => {
                    let (c, d) = choose|c: int, d: int|
                        #![trigger is_item(list, c, d)]
                        is_item(list, c, d) && carries_first(list, b + 1, c, d, key);
                    assert forall|x: int, y: int, k: Seq<char>| at <= x < c implies !#[trigger] carries(
                        list,
                        x,
                        y,
                        k,
                    ) by {
                        if carries(list, x, y, k) && x <= b {
                            assert(x == at);
                        }
                    }
                    lemma_is_key(list, at, c, d, key);
                },
                None => {
                    assert forall|x: int, y: int, k: Seq<char>| at <= x implies !#[trigger] carries(
                        list,
                        x,
                        y,
                        k,
                    ) by {
                        if carries(list, x, y, k) {
                            assert(b + 1 <= x);
                        }
                    }
                    assert(is_key(list, at, None));
                },
            }
        } else {
            assert(protocol_key(part) is None);
            assert forall|x: int, y: int, k: Seq<char>| at <= x implies !#[trigger] carries(
                list,
                x,
                y,
                k,
            ) by {
                if carries(list, x, y, k) {
                    assert(x == at);
                }
            }
            assert(is_key(list, at, None));
        }
    }
}

/// The key among the protocols of a request is the one that the first item with the name of the key
/// protocol carries; where no item has that name, there is none.
pub proof fn law_protocols_carry_the_key_after_its_name(list: Seq<char>)
    ensures
        is_key(list, 0, protocol_key(list)),
{
    lemma_protocol_key(list, 0);
    assert(list.skip(0) =~= list);
}

/// A request without a key is refused with status 403, one with another key with status 401, and
/// both are told so.
pub proof fn law_refusals_name_their_reason(path: Seq<char>, shown: Option<Seq<char>>, key: Seq<char>)
    requires
        has_prefix(path, "/v1/"@),
    ensures
        shown is None ==> refusal(access(path, shown, Some(key))) == Some(
            ApiFault { status: 403, body: detail("authentication_error"@, "Missing API key"@) },
        ),
        shown is Some && shown->Some_0 != "Bearer "@ + key ==> refusal(access(path, shown, Some(key)))
            == Some(
            ApiFault { status: 401, body: detail("authentication_error"@, "Invalid API key"@) },
        ),
        refusal(access(path, shown, None)) is None,
{
}

// ---------------------------------------------------------------------------------------------
// Answers
// ---------------------------------------------------------------------------------------------

/// What the client did wrong it is told, with a status of the client's; of all other errors it
/// learns only that they happened.
pub proof fn law_only_invalid_input_is_explained(error: ErrorModel)
    ensures
        ({
            let told = generation_fault(error);
            let read = read_fault(error);
            match error {
                ErrorModel::InvalidInput(message) => {
                    &&& told.status == 400 && told.message == message
                    &&& read.status == 422 && exists|items: Seq<Tree>|
                        read.body.at("detail"@) == Tree::List(items) && items.len() == 1
                            && #[trigger] items[0].at("msg"@) == Tree::Text(message)
                },
                _ => {
                    &&& told.status == 500 && told.message == "Generation failed"@
                    &&& read.status == 500 && read.body.at("detail"@).at("message"@) == Tree::Text(
                        "Inference failed"@,
                    )
                },
            }
        }),
{
    let read = read_fault(error);
    reveal_strlit("msg");
    reveal_strlit("loc");
    reveal_strlit("message");
    reveal_strlit("error_type");
    assert("msg"@.len() == 3 && "loc"@.len() == 3 && "msg"@[0] != "loc"@[0]);
    assert("message"@.len() == 7 && "error_type"@.len() == 10);
    reveal_with_fuel(lookup, 4);
    let found = read.body.at("detail"@);
    assert(read.body.entry("detail"@) == Some(read.body->Object_0[0].1));
    if let ErrorModel::InvalidInput(message) = error {
        let items = found->List_0;
        let members = items[0]->Object_0;
        assert(members[0].0 == "loc"@ && members[1].0 == "msg"@);
        assert(members.drop_first()[0] == members[1]);
        assert(items[0].at("msg"@) == Tree::Text(message));
    } else {
        let members = found->Object_0;
        assert(members[0].0 == "error_type"@ && members[1].0 == "message"@);
        assert(members.drop_first()[0] == members[1]);
    }
}

/// The listing shows every name that a model is served under, the language model's first and then the
/// speech model's, each with its ID first; and the same names in both of its shapes.
pub proof fn law_every_served_name_is_listed(state: AppState)
    ensures
        ({
            let body = listing(listed(state));
            let texts = match state.text {
                Some(s) => s.named(),
                None => Seq::empty(),
            };
            let speech = match state.speech {
                Some(s) => s.named(),
                None => Seq::empty(),
            };
            let names = texts + speech;
            let data = body->Object_0[0].1;
            let models = body->Object_0[1].1;
            &&& body->Object_0[0].0 == "data"@ && body->Object_0[1].0 == "models"@
            &&& data is List && models is List
            &&& data->List_0.len() == names.len() && models->List_0.len() == names.len()
            &&& forall|i: int|
                0 <= i < names.len() ==> (#[trigger] data->List_0[i]).at("id"@) == Tree::Text(
                    names[i],
                )
            &&& forall|i: int|
                0 <= i < names.len() ==> (#[trigger] models->List_0[i]).at("name"@) == Tree::Text(
                    names[i],
                )
        }),
{
    let body = listing(listed(state));
    let texts = match state.text {
        Some(s) => s.named(),
        None => Seq::empty(),
    };
    let speech = match state.speech {
        Some(s) => s.named(),
        None => Seq::empty(),
    };
    let names = texts + speech;
    let all = listed(state);
    let data = body->Object_0[0].1->List_0;
    let models = body->Object_0[1].1->List_0;
    assert(all.len() == names.len());
    assert forall|i: int| 0 <= i < names.len() implies (#[trigger] all[i]).0 == names[i] by {}
    reveal_strlit("created");
    reveal_strlit("id");
    reveal_strlit("description");
    reveal_strlit("name");
    assert("created"@.len() == 7 && "id"@.len() == 2 && "description"@.len() == 11 && "name"@.len()
        == 4);
    reveal_with_fuel(lookup, 4);
    assert forall|i: int| 0 <= i < names.len() implies (#[trigger] data[i]).at("id"@) == Tree::Text(
        names[i],
    ) by {
        let members = data[i]->Object_0;
        assert(members[0].0 == "created"@ && members[1].0 == "id"@);
        assert(members.drop_first()[0] == members[1]);
        assert(all[i].0 == names[i]);
    }
    assert forall|i: int| 0 <= i < names.len() implies (#[trigger] models[i]).at("name"@)
        == Tree::Text(names[i]) by {
        let members = models[i]->Object_0;
        assert(members[0].0 == "description"@ && members[1].0 == "name"@);
        assert(members.drop_first()[0] == members[1]);
        assert(all[i].0 == names[i]);
    }
}

} // verus!
