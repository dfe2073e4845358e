//! The models that a server offers under their names.
use crate::json::{Json, Tree};
use crate::sequences::texts;
use crate::server::error::{member, text_json};
use crate::text::{decimal, digits, same_text, trim, trim_text};
use vstd::prelude::*;
use vstd::string::*;

verus! {

/// A model with its ID, the aliases it is also known by, and its description.
#[derive(Debug)]
pub struct Service {
    pub model_id: String,
    pub aliases: Vec<String>,
    pub description: String,
}

impl Service {
    /// The ID, then the aliases.
    pub open spec fn named(self) -> Seq<Seq<char>> {
        seq![self.model_id@] + texts(self.aliases@)
    }

    /// The names it is listed under: its ID, then its aliases.
    pub fn names(&self) -> (r: Vec<String>)
        ensures
            texts(r@) == self.named(),
    {
        let mut list: Vec<String> = Vec::new();
        list.push(self.model_id.as_str().to_owned());
        let mut i: usize = 0;
        assert(texts(list@) =~= self.named().take(1));
        while i < self.aliases.len()
            invariant
                i <= self.aliases@.len(),
                texts(list@) == self.named().take(i + 1),
            decreases self.aliases@.len() - i,
        {
            let ghost before = list@;
            list.push(self.aliases[i].as_str().to_owned());
            proof {
                let all = self.named();
                assert(all[i + 1] == self.aliases@[i as int]@);
                assert(texts(list@) =~= texts(before).push(all[i + 1]));
                assert(all.take(i + 2) =~= all.take(i + 1).push(all[i + 1]));
            }
            i += 1;
        }
        assert(self.named().take(i + 1) =~= self.named());
        list
    }

    /// Whether a request for `model` is for this one.
    pub fn serves(&self, model: &str) -> (r: bool)
        ensures
            r == self.named().contains(model@),
    {
        if same_text(self.model_id.as_str(), model) {
            assert(self.named()[0] == model@);
            return true;
        }
        let mut i: usize = 0;
        while i < self.aliases.len()
            invariant
                i <= self.aliases@.len(),
                self.model_id@ != model@,
                forall|k: int| 0 <= k < i ==> (#[trigger] self.aliases@[k])@ != model@,
            decreases self.aliases@.len() - i,
        {
            if same_text(self.aliases[i].as_str(), model) {
                assert(self.named()[i + 1] == model@);
                return true;
            }
            i += 1;
        }
        assert forall|k: int| 0 <= k < self.named().len() implies self.named()[k] != model@ by {
            if k > 0 {
                assert(self.named()[k] == self.aliases@[k - 1]@);
            }
        }
        false
    }
}

/// Two services share a name.
pub open spec fn share_a_name(a: Seq<Seq<char>>, b: Seq<Seq<char>>) -> bool {
    exists|i: int| 0 <= i < b.len() && a.contains(#[trigger] b[i])
}

/// Refuses a language and a speech model under one name.
pub fn check_names(text: &Service, speech: &Service) -> (r: Result<(), String>)
    ensures
        r is Err <==> share_a_name(text.named(), speech.named()),
        r matches Err(m) ==> m@
            == "The language and speech models must have different IDs and aliases"@,
{
    let names: Vec<String> = speech.names();
    let mut i: usize = 0;
    while i < names.len()
        invariant
            i <= names@.len(),
            texts(names@) == speech.named(),
            forall|k: int| 0 <= k < i ==> !text.named().contains(#[trigger] speech.named()[k]),
        decreases names@.len() - i,
    {
        assert(speech.named()[i as int] == names@[i as int]@);
        if text.serves(names[i].as_str()) {
            return Err(
                "The language and speech models must have different IDs and aliases".to_owned(),
            );
        }
        i += 1;
    }
    Ok(())
}

/// The names among the first `n` that are not the ID.
pub open spec fn other_names(names: Seq<Seq<char>>, id: Seq<char>, n: nat) -> Seq<Seq<char>>
    decreases n,
{
    if n == 0 {
        Seq::empty()
    } else if names[n - 1] == id {
        other_names(names, id, (n - 1) as nat)
    } else {
        other_names(names, id, (n - 1) as nat).push(names[n - 1])
    }
}

/// Aliases of a model but for its own ID.
pub fn aliases_of(names: &Vec<String>, id: &str) -> (r: Vec<String>)
    ensures
        texts(r@) == other_names(texts(names@), id@, names@.len()),
{
    let ghost all = texts(names@);
    let mut list: Vec<String> = Vec::new();
    let mut i: usize = 0;
    assert(texts(list@) =~= Seq::empty());
    while i < names.len()
        invariant
            i <= names@.len(),
            all == texts(names@),
            texts(list@) == other_names(all, id@, i as nat),
        decreases names@.len() - i,
    {
        assert(all[i as int] == names@[i as int]@);
        if !same_text(names[i].as_str(), id) {
            let ghost before = list@;
            list.push(names[i].as_str().to_owned());
            assert(texts(list@) =~= texts(before).push(all[i as int]));
        }
        i += 1;
    }
    list
}

fn three(a: &str, b: &str, c: &str) -> (r: Vec<String>)
    ensures
        r@.len() == 3,
        texts(r@) == seq![a@, b@, c@],
{
    let mut list: Vec<String> = Vec::new();
    list.push(a.to_owned());
    list.push(b.to_owned());
    list.push(c.to_owned());
    assert(texts(list@) =~= seq![a@, b@, c@]);
    list
}

/// A model's own ID, unless another is set; it must not be blank.
pub fn chosen_id(set: Option<String>, default: &str, speech: bool) -> (r: Result<String, String>)
    ensures
        ({
            let id = match set {
                Some(s) => s@,
                None => default@,
            };
            &&& r is Ok <==> trim(id).len() > 0
            &&& r matches Ok(s) ==> s@ == id
            &&& r matches Err(m) ==> m@ == if speech {
                "The speech model ID must be nonempty"@
            } else {
                "The model ID must be nonempty"@
            }
        }),
{
    let id: String = match set {
        Some(s) => s,
        None => default.to_owned(),
    };
    if trim_text(id.as_str()).as_str().unicode_len() == 0 {
        return Err(
            if speech {
                "The speech model ID must be nonempty".to_owned()
            } else {
                "The model ID must be nonempty".to_owned()
            },
        );
    }
    Ok(id)
}

/// The service of a loaded language model; `latest` is its architecture's alias.
pub fn text_service(model_id: &str, latest: &str, display_name: &str) -> (r: Service)
    ensures
        r.model_id@ == model_id@,
        texts(r.aliases@) == other_names(
            seq![latest@, "openjev-latest"@, "jev-latest"@],
            model_id@,
            3,
        ),
        r.description@ == "Local "@ + display_name@ + ", structured diffusion reads. Served as "@
            + model_id@ + "."@,
{
    Service {
        model_id: model_id.to_owned(),
        aliases: aliases_of(&three(latest, "openjev-latest", "jev-latest"), model_id),
        description: "Local ".to_owned().concat(display_name).concat(
            ", structured diffusion reads. Served as ",
        ).concat(model_id).concat("."),
    }
}

/// The service of a loaded speech model; `latest` is its architecture's alias.
pub fn speech_service(model_id: &str, latest: &str, display_name: &str, languages: usize) -> (r:
    Service)
    ensures
        r.model_id@ == model_id@,
        texts(r.aliases@) == other_names(seq![latest@], model_id@, 1),
        r.description@ == "Local "@ + display_name@ + ", speech to text in "@ + digits(
            languages as nat,
        ) + " languages. Served as "@ + model_id@ + "."@,
{
    let mut names: Vec<String> = Vec::new();
    names.push(latest.to_owned());
    assert(texts(names@) =~= seq![latest@]);
    Service {
        model_id: model_id.to_owned(),
        aliases: aliases_of(&names, model_id),
        description: "Local ".to_owned().concat(display_name).concat(
            ", speech to text in ",
        ).concat(decimal(languages as u64).as_str()).concat(" languages. Served as ").concat(
            model_id,
        ).concat("."),
    }
}

proof fn lemma_other_names(names: Seq<Seq<char>>, id: Seq<char>, n: nat)
    requires
        n <= names.len(),
    ensures
        !other_names(names, id, n).contains(id),
        forall|i: int|
            0 <= i < n && #[trigger] names[i] != id ==> other_names(names, id, n).contains(
                names[i],
            ),
    decreases n,
{
    if n > 0 {
        lemma_other_names(names, id, (n - 1) as nat);
        let before = other_names(names, id, (n - 1) as nat);
        let all = other_names(names, id, n);
        if names[n - 1] != id {
            assert(all[all.len() - 1] == names[n - 1]);
        }
        assert forall|i: int| 0 <= i < n && #[trigger] names[i] != id implies all.contains(
            names[i],
        ) by {
            if i < n - 1 {
                assert(before.contains(names[i]));
                let k = choose|k: int| 0 <= k < before.len() && before[k] == names[i];
                assert(all[k] == names[i]);
            }
        }
    }
}

/// A language model is served under its ID and under every alias: none is lost where the ID is one
/// of them, and the ID is not listed twice.
pub proof fn law_models_are_served_under_every_name(id: Seq<char>, latest: Seq<char>)
    ensures
        ({
            let names = seq![latest, "openjev-latest"@, "jev-latest"@];
            let served = seq![id] + other_names(names, id, 3);
            &&& forall|i: int| 0 <= i < 3 ==> served.contains(#[trigger] names[i])
            &&& served.contains(id)
            &&& !other_names(names, id, 3).contains(id)
        }),
{
    let names = seq![latest, "openjev-latest"@, "jev-latest"@];
    let others = other_names(names, id, 3);
    let served = seq![id] + others;
    lemma_other_names(names, id, 3);
    assert(served[0] == id);
    assert forall|i: int| 0 <= i < 3 implies served.contains(#[trigger] names[i]) by {
        if names[i] != id {
            assert(others.contains(names[i]));
            let k = choose|k: int| 0 <= k < others.len() && others[k] == names[i];
            assert(served[k + 1] == names[i]);
        }
    }
}

/// Refuses to start without a model, with an empty key, or without a queue.
pub fn check_start(
    model: bool,
    speech_model: bool,
    api_key: Option<&str>,
    queue_capacity: usize,
) -> (r: Result<(), String>)
    ensures
        r is Ok <==> (model || speech_model) && (api_key matches Some(k) ==> k@.len() > 0)
            && queue_capacity > 0,
        r matches Err(m) ==> m@ == if !model && !speech_model {
            "Set a language model with --model (DIFFUSION_MODEL) or a speech model with --speech-model (JEVONS_SPEECH_MODEL), or either in the settings file"@
        } else if api_key matches Some(k) && k@.len() == 0 {
            "The configured API key must be nonempty"@
        } else {
            "Queue capacity must be positive"@
        },
{
    if !model && !speech_model {
        return Err(
            "Set a language model with --model (DIFFUSION_MODEL) or a speech model with --speech-model (JEVONS_SPEECH_MODEL), or either in the settings file".to_owned(),
        );
    }
    match api_key {
        Some(key) => {
            if key.unicode_len() == 0 {
                return Err("The configured API key must be nonempty".to_owned());
            }
        },
        None => {},
    }
    if queue_capacity == 0 {
        return Err("Queue capacity must be positive".to_owned());
    }
    Ok(())
}

// ---------------------------------------------------------------------------------------------
// The server's models
// ---------------------------------------------------------------------------------------------

/// What requests share: the models, and the key that they need.
#[derive(Debug)]
pub struct AppState {
    pub text: Option<Service>,
    pub speech: Option<Service>,
    pub api_key: Option<String>,
}

/// The first model's release.
pub const CREATED: u64 = 1_790_294_400;

/// The entry of a name in the System One listing.
pub open spec fn model_entry(name: Seq<char>, description: Seq<char>) -> Tree {
    Tree::Object(
        seq![
            ("description"@, Tree::Text(description)),
            ("name"@, Tree::Text(name)),
            ("release_date"@, Tree::Text("2026-09-19"@)),
        ],
    )
}

/// The entry of a name in the OpenAI listing.
pub open spec fn data_entry(name: Seq<char>) -> Tree {
    Tree::Object(
        seq![
            ("created"@, Tree::Unsigned(CREATED)),
            ("id"@, Tree::Text(name)),
            ("object"@, Tree::Text("model"@)),
            ("owned_by"@, Tree::Text("jevons"@)),
        ],
    )
}

/// The names and descriptions that a server lists: the language model's, then the speech model's.
pub open spec fn listed(state: AppState) -> Seq<(Seq<char>, Seq<char>)> {
    listed_names(state.text) + listed_names(state.speech)
}

/// Each name of a service with its description.
pub open spec fn listed_names(service: Option<Service>) -> Seq<(Seq<char>, Seq<char>)> {
    match service {
        None => Seq::empty(),
        Some(s) => Seq::new(s.named().len(), |i: int| (s.named()[i], s.description@)),
    }
}

/// The System One listing (`models`) and the OpenAI one (`object`, `data`) in one body.
pub open spec fn listing(names: Seq<(Seq<char>, Seq<char>)>) -> Tree {
    Tree::Object(
        seq![
            ("data"@, Tree::List(Seq::new(names.len(), |i: int| data_entry(names[i].0)))),
            (
                "models"@,
                Tree::List(Seq::new(names.len(), |i: int| model_entry(names[i].0, names[i].1))),
            ),
            ("object"@, Tree::Text("list"@)),
        ],
    )
}

fn show_model(name: &str, description: &str) -> (r: Json)
    ensures
        r@ == model_entry(name@, description@),
{
    let mut members: Vec<(String, Json)> = Vec::new();
    members.push(member("description", text_json(description)));
    members.push(member("name", text_json(name)));
    members.push(member("release_date", text_json("2026-09-19")));
    let object: Json = Json::Object(members);
    assert(object@->Object_0 =~= model_entry(name@, description@)->Object_0);
    object
}

fn show_data(name: &str) -> (r: Json)
    ensures
        r@ == data_entry(name@),
{
    let mut members: Vec<(String, Json)> = Vec::new();
    let created: Json = Json::Unsigned(CREATED);
    assert(created@ == Tree::Unsigned(CREATED));
    members.push(member("created", created));
    members.push(member("id", text_json(name)));
    members.push(member("object", text_json("model")));
    members.push(member("owned_by", text_json("jevons")));
    let object: Json = Json::Object(members);
    assert(object@->Object_0 =~= data_entry(name@)->Object_0);
    object
}

fn push_listed(service: &Option<Service>, data: &mut Vec<Json>, models: &mut Vec<Json>, Ghost(before): Ghost<
    Seq<(Seq<char>, Seq<char>)>,
>)
    requires
        shown(old(data)@, old(models)@, before),
    ensures
        shown(final(data)@, final(models)@, before + listed_names(*service)),
{
    match service {
        None => {
            assert(before + listed_names(*service) =~= before);
        },
        Some(s) => {
            let names: Vec<String> = s.names();
            let ghost all = listed_names(*service);
            let mut i: usize = 0;
            assert(before + all.take(0) =~= before);
            while i < names.len()
                invariant
                    i <= names@.len(),
                    texts(names@) == s.named(),
                    all == Seq::new(s.named().len(), |i: int| (s.named()[i], s.description@)),
                    shown(data@, models@, before + all.take(i as int)),
                decreases names@.len() - i,
            {
                assert(s.named()[i as int] == names@[i as int]@);
                let ghost had = before + all.take(i as int);
                let ghost now = before + all.take(i + 1);
                assert(now =~= had.push(all[i as int]));
                data.push(show_data(names[i].as_str()));
                models.push(show_model(names[i].as_str(), s.description.as_str()));
                i += 1;
            }
            assert(all.take(i as int) =~= all);
        },
    }
}

/// The entries of these names.
pub open spec fn shown(
    data: Seq<Json>,
    models: Seq<Json>,
    names: Seq<(Seq<char>, Seq<char>)>,
) -> bool {
    &&& data.len() == names.len()
    &&& models.len() == names.len()
    &&& forall|i: int| 0 <= i < names.len() ==> (#[trigger] data[i])@ == data_entry(names[i].0)
    &&& forall|i: int|
        0 <= i < names.len() ==> (#[trigger] models[i])@ == model_entry(names[i].0, names[i].1)
}

impl AppState {
    /// The body of the model listing.
    pub fn models(&self) -> (r: Json)
        ensures
            r@ == listing(listed(*self)),
    {
        let mut data: Vec<Json> = Vec::new();
        let mut models: Vec<Json> = Vec::new();
        let ghost none: Seq<(Seq<char>, Seq<char>)> = Seq::empty();
        push_listed(&self.text, &mut data, &mut models, Ghost(none));
        push_listed(&self.speech, &mut data, &mut models, Ghost(none + listed_names(self.text)));
        let ghost names = none + listed_names(self.text) + listed_names(self.speech);
        assert(names =~= listed(*self));
        let data_list: Json = Json::List(data);
        let model_list: Json = Json::List(models);
        proof {
            let want = listing(names)->Object_0;
            assert(data_list@->List_0 =~= want[0].1->List_0);
            assert(model_list@->List_0 =~= want[1].1->List_0);
        }
        let mut members: Vec<(String, Json)> = Vec::new();
        members.push(member("data", data_list));
        members.push(member("models", model_list));
        members.push(member("object", text_json("list")));
        let body: Json = Json::Object(members);
        assert(body@->Object_0 =~= listing(names)->Object_0);
        body
    }
}

} // verus!
