//! Server settings from flags, environment variables and an optional file.
//!
//! Precedence: command-line flags, then environment variables, then the file, then defaults. Paths
//! of the file that are relative or start with `~/` resolve against the file's directory and the
//! home directory.
use crate::engine::config::{unknown_decoding, Decoding};
use crate::error::Result;
use crate::text::{characters, string_of, text_in};
use vstd::prelude::*;
use vstd::string::*;

verus! {

/// The settings of a server.
#[derive(Debug)]
pub struct Settings {
    pub config: Option<String>,
    /// GGUF file or checkpoint directory.
    pub model: Option<String>,
    /// Model architecture; detected from the model files where it is `auto`.
    pub arch: String,
    /// Separate vision projector.
    pub mmproj: Option<String>,
    /// Address to listen on.
    pub bind: String,
    /// Served model ID; the model's own by default.
    pub model_id: Option<String>,
    /// Speech checkpoint directory.
    pub speech_model: Option<String>,
    /// Served speech model ID; the model's own by default.
    pub speech_model_id: Option<String>,
    pub api_key: Option<String>,
    pub main_gpu: usize,
    pub context_size: u32,
    pub batch_size: u32,
    /// Recompute every prompt instead of reusing the longest cached token prefix.
    pub no_prompt_cache: bool,
    pub seed: u64,
    pub queue_capacity: usize,
    pub speech_queue_capacity: usize,
    /// Serve uploads only, no live transcription.
    pub no_realtime: bool,
    pub decoding: Decoding,
}

/// The settings file. Every key is optional.
#[derive(Debug)]
pub struct File {
    pub model: Option<String>,
    pub arch: Option<String>,
    pub mmproj: Option<String>,
    pub bind: Option<String>,
    pub model_id: Option<String>,
    pub speech_model: Option<String>,
    pub speech_model_id: Option<String>,
    pub api_key: Option<String>,
    pub main_gpu: Option<usize>,
    pub context_size: Option<u32>,
    pub batch_size: Option<u32>,
    pub prompt_cache: Option<bool>,
    pub seed: Option<u64>,
    pub queue_capacity: Option<usize>,
    pub speech_queue_capacity: Option<usize>,
    pub realtime: Option<bool>,
    pub decoding: Option<String>,
}

/// Which settings a flag or an environment variable gave.
#[derive(Clone, Copy, Debug, PartialEq, Eq, Structural)]
pub struct Given {
    pub model: bool,
    pub arch: bool,
    pub mmproj: bool,
    pub bind: bool,
    pub model_id: bool,
    pub speech_model: bool,
    pub speech_model_id: bool,
    pub api_key: bool,
    pub main_gpu: bool,
    pub context_size: bool,
    pub batch_size: bool,
    pub no_prompt_cache: bool,
    pub seed: bool,
    pub queue_capacity: bool,
    pub speech_queue_capacity: bool,
    pub no_realtime: bool,
    pub decoding: bool,
}

// ---------------------------------------------------------------------------------------------
// Paths
// ---------------------------------------------------------------------------------------------

/// The path starts at the root.
pub open spec fn absolute(path: Seq<char>) -> bool {
    path.len() > 0 && path[0] == '/'
}

/// The text without the slashes before it.
pub open spec fn without_slashes(text: Seq<char>) -> Seq<char>
    decreases text.len(),
{
    if text.len() > 0 && text[0] == '/' {
        without_slashes(text.drop_first())
    } else {
        text
    }
}

/// What follows `~` in a path from the home directory.
pub open spec fn after_home(path: Seq<char>) -> Option<Seq<char>> {
    if path.len() > 0 && path[0] == '~' && (path.len() == 1 || path[1] == '/') {
        Some(without_slashes(path.drop_first()))
    } else {
        None
    }
}

/// `path` from the directory `base`.
pub open spec fn joined_path(base: Seq<char>, path: Seq<char>) -> Seq<char> {
    if absolute(path) || base.len() == 0 {
        path
    } else if base.last() == '/' {
        base + path
    } else {
        base + seq!['/'] + path
    }
}

/// `~/...` from the home directory; other relative paths from `base`.
pub open spec fn resolved(path: Seq<char>, base: Seq<char>, home: Option<Seq<char>>) -> Seq<char> {
    if after_home(path) is Some && home is Some {
        joined_path(home->Some_0, after_home(path)->Some_0)
    } else if absolute(path) {
        path
    } else {
        joined_path(base, path)
    }
}

/// The characters of an optional text.
pub open spec fn chars_of(text: Option<&str>) -> Option<Seq<char>> {
    match text {
        None => None,
        Some(s) => Some(s@),
    }
}

/// `path` from the directory `base`.
pub fn join_path(base: &str, path: &str) -> (r: String)
    ensures
        r@ == joined_path(base@, path@),
{
    let b: Vec<char> = characters(base);
    let p: Vec<char> = characters(path);
    if (p.len() > 0 && p[0] == '/') || b.len() == 0 {
        return path.to_owned();
    }
    if b[b.len() - 1] == '/' {
        return base.to_owned().concat(path);
    }
    proof {
        reveal_strlit("/");
        assert("/"@ =~= seq!['/']);
    }
    base.to_owned().concat("/").concat(path)
}

fn strip_home(path: &str) -> (r: Option<String>)
    ensures
        r is Some <==> after_home(path@) is Some,
        r matches Some(rest) ==> after_home(path@) == Some(rest@),
{
    let chars: Vec<char> = characters(path);
    if chars.len() == 0 || chars[0] != '~' || (chars.len() > 1 && chars[1] != '/') {
        return None;
    }
    let ghost all = chars@.skip(1);
    let mut from: usize = 1;
    assert(path@.drop_first() =~= all);
    while from < chars.len() && chars[from] == '/'
        invariant
            1 <= from <= chars@.len(),
            without_slashes(all) == without_slashes(chars@.skip(from as int)),
        decreases chars@.len() - from,
    {
        proof {
            assert(chars@.skip(from as int)[0] == chars@[from as int]);
            assert(chars@.skip(from as int).drop_first() =~= chars@.skip(from + 1));
        }
        from += 1;
    }
    proof {
        if from < chars@.len() {
            assert(chars@.skip(from as int)[0] == chars@[from as int]);
        }
        assert(chars@.skip(from as int) =~= chars@.subrange(from as int, chars@.len() as int));
    }
    Some(string_of(&chars, from, chars.len()))
}

/// A path of the settings file.
pub fn resolve(path: &str, base: &str, home: Option<&str>) -> (r: String)
    ensures
        r@ == resolved(path@, base@, chars_of(home)),
{
    match (strip_home(path), home) {
        (Some(rest), Some(directory)) => {
            return join_path(directory, rest.as_str());
        },
        _ => {},
    }
    let chars: Vec<char> = characters(path);
    if chars.len() > 0 && chars[0] == '/' {
        return path.to_owned();
    }
    join_path(base, path)
}

// ---------------------------------------------------------------------------------------------
// Merging
// ---------------------------------------------------------------------------------------------

/// A setting: what was given, else what the file says, else what it was.
#[verifier::opaque]
pub open spec fn merged<T>(was: T, file: Option<T>, given: bool) -> T {
    if given || file is None {
        was
    } else {
        file->Some_0
    }
}

/// The mathematical model of [`Settings`].
#[verifier::ext_equal]
pub struct SettingsModel {
    pub config: Option<Seq<char>>,
    pub model: Option<Seq<char>>,
    pub arch: Seq<char>,
    pub mmproj: Option<Seq<char>>,
    pub bind: Seq<char>,
    pub model_id: Option<Seq<char>>,
    pub speech_model: Option<Seq<char>>,
    pub speech_model_id: Option<Seq<char>>,
    pub api_key: Option<Seq<char>>,
    pub main_gpu: usize,
    pub context_size: u32,
    pub batch_size: u32,
    pub no_prompt_cache: bool,
    pub seed: u64,
    pub queue_capacity: usize,
    pub speech_queue_capacity: usize,
    pub no_realtime: bool,
    pub decoding: Decoding,
}

impl View for Settings {
    type V = SettingsModel;

    open spec fn view(&self) -> SettingsModel {
        SettingsModel {
            config: text_in(self.config),
            model: text_in(self.model),
            arch: self.arch@,
            mmproj: text_in(self.mmproj),
            bind: self.bind@,
            model_id: text_in(self.model_id),
            speech_model: text_in(self.speech_model),
            speech_model_id: text_in(self.speech_model_id),
            api_key: text_in(self.api_key),
            main_gpu: self.main_gpu,
            context_size: self.context_size,
            batch_size: self.batch_size,
            no_prompt_cache: self.no_prompt_cache,
            seed: self.seed,
            queue_capacity: self.queue_capacity,
            speech_queue_capacity: self.speech_queue_capacity,
            no_realtime: self.no_realtime,
            decoding: self.decoding,
        }
    }
}

/// A path of the file, resolved.
pub open spec fn path_in(path: Option<String>, base: Seq<char>, home: Option<Seq<char>>) -> Option<
    Option<Seq<char>>,
> {
    match path {
        None => None,
        Some(p) => Some(Some(resolved(p@, base, home))),
    }
}

/// An optional setting of the file.
pub open spec fn option_in(text: Option<String>) -> Option<Option<Seq<char>>> {
    match text {
        None => None,
        Some(s) => Some(Some(s@)),
    }
}

/// The opposite of a switch of the file.
pub open spec fn negated(flag: Option<bool>) -> Option<bool> {
    match flag {
        None => None,
        Some(b) => Some(!b),
    }
}

/// All settings but the decoding, with the file's values where none was given.
pub open spec fn filled(
    was: SettingsModel,
    file: File,
    base: Seq<char>,
    home: Option<Seq<char>>,
    given: Given,
) -> SettingsModel {
    SettingsModel {
        config: was.config,
        model: merged(was.model, path_in(file.model, base, home), given.model),
        arch: merged(was.arch, text_in(file.arch), given.arch),
        mmproj: merged(was.mmproj, path_in(file.mmproj, base, home), given.mmproj),
        bind: merged(was.bind, text_in(file.bind), given.bind),
        model_id: merged(was.model_id, option_in(file.model_id), given.model_id),
        speech_model: merged(
            was.speech_model,
            path_in(file.speech_model, base, home),
            given.speech_model,
        ),
        speech_model_id: merged(
            was.speech_model_id,
            option_in(file.speech_model_id),
            given.speech_model_id,
        ),
        api_key: merged(was.api_key, option_in(file.api_key), given.api_key),
        main_gpu: merged(was.main_gpu, file.main_gpu, given.main_gpu),
        context_size: merged(was.context_size, file.context_size, given.context_size),
        batch_size: merged(was.batch_size, file.batch_size, given.batch_size),
        no_prompt_cache: merged(
            was.no_prompt_cache,
            negated(file.prompt_cache),
            given.no_prompt_cache,
        ),
        seed: merged(was.seed, file.seed, given.seed),
        queue_capacity: merged(was.queue_capacity, file.queue_capacity, given.queue_capacity),
        speech_queue_capacity: merged(
            was.speech_queue_capacity,
            file.speech_queue_capacity,
            given.speech_queue_capacity,
        ),
        no_realtime: merged(was.no_realtime, negated(file.realtime), given.no_realtime),
        decoding: was.decoding,
    }
}

fn negate(flag: Option<bool>) -> (r: Option<bool>)
    ensures
        r == negated(flag),
{
    match flag {
        None => None,
        Some(b) => Some(!b),
    }
}

/// A value of the file where none was given.
fn put<T>(slot: &mut T, value: Option<T>, given: bool)
    ensures
        *final(slot) == merged(*old(slot), value, given),
{
    reveal(merged);
    if !given {
        match value {
            Some(v) => {
                *slot = v;
            },
            None => {},
        }
    }
}

fn put_text(slot: &mut String, value: Option<String>, given: bool)
    ensures
        final(slot)@ == merged(old(slot)@, text_in(value), given),
{
    reveal(merged);
    if !given {
        match value {
            Some(v) => {
                *slot = v;
            },
            None => {},
        }
    }
}

fn put_option(slot: &mut Option<String>, value: Option<String>, given: bool)
    ensures
        text_in(*final(slot)) == merged(text_in(*old(slot)), option_in(value), given),
{
    reveal(merged);
    if !given {
        match value {
            Some(v) => {
                *slot = Some(v);
            },
            None => {},
        }
    }
}

fn put_path(
    slot: &mut Option<String>,
    value: Option<String>,
    base: &str,
    home: Option<&str>,
    given: bool,
)
    ensures
        text_in(*final(slot)) == merged(
            text_in(*old(slot)),
            path_in(value, base@, chars_of(home)),
            given,
        ),
{
    reveal(merged);
    if !given {
        match value {
            Some(v) => {
                *slot = Some(resolve(v.as_str(), base, home));
            },
            None => {},
        }
    }
}

impl Settings {
    fn fill_paths(
        &mut self,
        model: Option<String>,
        mmproj: Option<String>,
        speech_model: Option<String>,
        base: &str,
        home: Option<&str>,
        given: &Given,
    )
        ensures
            final(self)@ == (SettingsModel {
                model: merged(
                    old(self)@.model,
                    path_in(model, base@, chars_of(home)),
                    given.model,
                ),
                mmproj: merged(
                    old(self)@.mmproj,
                    path_in(mmproj, base@, chars_of(home)),
                    given.mmproj,
                ),
                speech_model: merged(
                    old(self)@.speech_model,
                    path_in(speech_model, base@, chars_of(home)),
                    given.speech_model,
                ),
                ..old(self)@
            }),
    {
        put_path(&mut self.model, model, base, home, given.model);
        put_path(&mut self.mmproj, mmproj, base, home, given.mmproj);
        put_path(&mut self.speech_model, speech_model, base, home, given.speech_model);
    }

    fn fill_texts(
        &mut self,
        arch: Option<String>,
        bind: Option<String>,
        model_id: Option<String>,
        speech_model_id: Option<String>,
        api_key: Option<String>,
        given: &Given,
    )
        ensures
            final(self)@ == (SettingsModel {
                arch: merged(old(self)@.arch, text_in(arch), given.arch),
                bind: merged(old(self)@.bind, text_in(bind), given.bind),
                model_id: merged(old(self)@.model_id, option_in(model_id), given.model_id),
                speech_model_id: merged(
                    old(self)@.speech_model_id,
                    option_in(speech_model_id),
                    given.speech_model_id,
                ),
                api_key: merged(old(self)@.api_key, option_in(api_key), given.api_key),
                ..old(self)@
            }),
    {
        put_text(&mut self.arch, arch, given.arch);
        put_text(&mut self.bind, bind, given.bind);
        put_option(&mut self.model_id, model_id, given.model_id);
        put_option(&mut self.speech_model_id, speech_model_id, given.speech_model_id);
        put_option(&mut self.api_key, api_key, given.api_key);
    }

    fn fill_sizes(
        &mut self,
        main_gpu: Option<usize>,
        context_size: Option<u32>,
        batch_size: Option<u32>,
        queue_capacity: Option<usize>,
        speech_queue_capacity: Option<usize>,
        given: &Given,
    )
        ensures
            final(self)@ == (SettingsModel {
                main_gpu: merged(old(self)@.main_gpu, main_gpu, given.main_gpu),
                context_size: merged(old(self)@.context_size, context_size, given.context_size),
                batch_size: merged(old(self)@.batch_size, batch_size, given.batch_size),
                queue_capacity: merged(
                    old(self)@.queue_capacity,
                    queue_capacity,
                    given.queue_capacity,
                ),
                speech_queue_capacity: merged(
                    old(self)@.speech_queue_capacity,
                    speech_queue_capacity,
                    given.speech_queue_capacity,
                ),
                ..old(self)@
            }),
    {
        put(&mut self.main_gpu, main_gpu, given.main_gpu);
        put(&mut self.context_size, context_size, given.context_size);
        put(&mut self.batch_size, batch_size, given.batch_size);
        put(&mut self.queue_capacity, queue_capacity, given.queue_capacity);
        put(&mut self.speech_queue_capacity, speech_queue_capacity, given.speech_queue_capacity);
    }

    fn fill_switches(
        &mut self,
        seed: Option<u64>,
        prompt_cache: Option<bool>,
        realtime: Option<bool>,
        given: &Given,
    )
        ensures
            final(self)@ == (SettingsModel {
                seed: merged(old(self)@.seed, seed, given.seed),
                no_prompt_cache: merged(
                    old(self)@.no_prompt_cache,
                    negated(prompt_cache),
                    given.no_prompt_cache,
                ),
                no_realtime: merged(
                    old(self)@.no_realtime,
                    negated(realtime),
                    given.no_realtime,
                ),
                ..old(self)@
            }),
    {
        put(&mut self.seed, seed, given.seed);
        put(&mut self.no_prompt_cache, negate(prompt_cache), given.no_prompt_cache);
        put(&mut self.no_realtime, negate(realtime), given.no_realtime);
    }

    /// Applies file values to every setting that was not given. A decoding that does not exist is
    /// an error; the other settings are applied then too.
    pub fn merge(&mut self, file: File, base: &str, home: Option<&str>, given: &Given) -> (r: Result<
        (),
    >)
        ensures
            ({
                let all = filled(old(self)@, file, base@, chars_of(home), *given);
                if file.decoding is Some && !given.decoding {
                    match Decoding::named(file.decoding->Some_0@) {
                        Some(decoding) => r is Ok && final(self)@ == (SettingsModel {
                            decoding,
                            ..all
                        }),
                        None => (r matches Err(e) && e@ == unknown_decoding(
                            file.decoding->Some_0@,
                        )) && final(self)@ == all,
                    }
                } else {
                    r is Ok && final(self)@ == all
                }
            }),
    {
        self.fill_paths(file.model, file.mmproj, file.speech_model, base, home, given);
        self.fill_texts(
            file.arch,
            file.bind,
            file.model_id,
            file.speech_model_id,
            file.api_key,
            given,
        );
        self.fill_sizes(
            file.main_gpu,
            file.context_size,
            file.batch_size,
            file.queue_capacity,
            file.speech_queue_capacity,
            given,
        );
        self.fill_switches(file.seed, file.prompt_cache, file.realtime, given);
        assert(self@ =~= filled(old(self)@, file, base@, chars_of(home), *given));
        match file.decoding {
            Some(name) => {
                if !given.decoding {
                    self.decoding = Decoding::parse(name.as_str())?;
                }
            },
            None => {},
        }
        Ok(())
    }
}

/// What a flag or the environment gave, the file does not change.
pub proof fn law_given_settings_win_over_the_file(
    was: SettingsModel,
    file: File,
    base: Seq<char>,
    home: Option<Seq<char>>,
    given: Given,
)
    ensures
        ({
            let all = filled(was, file, base, home, given);
            &&& given.model ==> all.model == was.model
            &&& given.arch ==> all.arch == was.arch
            &&& given.mmproj ==> all.mmproj == was.mmproj
            &&& given.bind ==> all.bind == was.bind
            &&& given.model_id ==> all.model_id == was.model_id
            &&& given.speech_model ==> all.speech_model == was.speech_model
            &&& given.speech_model_id ==> all.speech_model_id == was.speech_model_id
            &&& given.api_key ==> all.api_key == was.api_key
            &&& given.main_gpu ==> all.main_gpu == was.main_gpu
            &&& given.context_size ==> all.context_size == was.context_size
            &&& given.batch_size ==> all.batch_size == was.batch_size
            &&& given.no_prompt_cache ==> all.no_prompt_cache == was.no_prompt_cache
            &&& given.seed ==> all.seed == was.seed
            &&& given.queue_capacity ==> all.queue_capacity == was.queue_capacity
            &&& given.speech_queue_capacity ==> all.speech_queue_capacity
                == was.speech_queue_capacity
            &&& given.no_realtime ==> all.no_realtime == was.no_realtime
            &&& all.decoding == was.decoding
        }),
{
    reveal(merged);
}

// ---------------------------------------------------------------------------------------------
// Places
// ---------------------------------------------------------------------------------------------

/// The settings file to try after `./jevons.toml`: `~/.config/jevons/config.toml`.
pub fn user_file(home: Option<&str>) -> (r: Option<String>)
    ensures
        text_in(r) == match home {
            Some(h) => Some(joined_path(h@, ".config/jevons/config.toml"@)),
            None => None,
        },
{
    match home {
        Some(h) => Some(join_path(h, ".config/jevons/config.toml")),
        None => None,
    }
}

/// Directory for compiled kernels and tuned launch plans: the one that is set, else in the user's
/// cache directory, else in `.cache` of the home directory (`profile` where `home` is not set).
pub fn cache_dir(
    set: Option<&str>,
    xdg: Option<&str>,
    home: Option<&str>,
    profile: Option<&str>,
) -> (r: Option<String>)
    ensures
        text_in(r) == match set {
            Some(d) => Some(d@),
            None => match xdg {
                Some(d) => Some(joined_path(d@, "diffusion-cubecl"@)),
                None => match home {
                    Some(h) => Some(joined_path(h@, ".cache/diffusion-cubecl"@)),
                    None => match profile {
                        Some(h) => Some(joined_path(h@, ".cache/diffusion-cubecl"@)),
                        None => None,
                    },
                },
            },
        },
{
    match set {
        Some(d) => Some(d.to_owned()),
        None => match xdg {
            Some(d) => Some(join_path(d, "diffusion-cubecl")),
            None => match home {
                Some(h) => Some(join_path(h, ".cache/diffusion-cubecl")),
                None => match profile {
                    Some(h) => Some(join_path(h, ".cache/diffusion-cubecl")),
                    None => None,
                },
            },
        },
    }
}

} // verus!
