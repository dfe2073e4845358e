//! Opening the stored plans of a device, and what saved plans give back.
use crate::kernels::fields::lemma_digits_round_trip;
use crate::kernels::store::{
    law_plans_of_other_devices_are_not_used, law_saved_plans_are_loaded_again,
    lemma_header_is_a_line, loaded, stored_text, Tables,
};
use crate::kernels::tune::{DeviceProfile, GroupPlan, Plan, QMatrix, Tuner};
use crate::server::settings::{chars_of, join_path, joined_path};
use crate::text::{digits, same_text, text_in};
use vstd::prelude::*;
use vstd::string::*;

verus! {

/// Where the plans are stored: in the directory of the kernel cache, where there is one; nowhere
/// where the mode turns tuning off.
pub open spec fn plans_path(mode: Option<Seq<char>>, dir: Option<Seq<char>>) -> Option<Seq<char>> {
    if mode == Some("0"@) || mode == Some("off"@) {
        None
    } else {
        match dir {
            Some(d) => Some(joined_path(d, "autotune.txt"@)),
            None => None,
        }
    }
}

/// No plans.
pub open spec fn no_plans() -> Tables {
    Tables { dense: Seq::empty(), grouped: Seq::empty() }
}

fn is_mode(mode: Option<&str>, name: &str) -> (r: bool)
    ensures
        r == (chars_of(mode) == Some(name@)),
{
    match mode {
        Some(m) => same_text(m, name),
        None => false,
    }
}

impl Tuner {
    /// Where the plans are stored, by the mode of tuning and the directory of the kernel cache.
    pub fn place(mode: Option<&str>, dir: Option<&str>) -> (r: Option<String>)
        ensures
            text_in(r) == plans_path(chars_of(mode), chars_of(dir)),
    {
        if is_mode(mode, "0") || is_mode(mode, "off") {
            return None;
        }
        match dir {
            Some(d) => Some(join_path(d, "autotune.txt")),
            None => None,
        }
    }

    /// A tuner with the plans of `text`, which is stored at its place; none are loaded where plans
    /// are to be measured again.
    pub fn new(
        profile: DeviceProfile,
        mode: Option<&str>,
        dir: Option<&str>,
        text: Option<&str>,
    ) -> (r: Self)
        ensures
            r.profile == profile,
            text_in(r.path) == plans_path(chars_of(mode), chars_of(dir)),
            r.tables() == if r.path is Some && text is Some && chars_of(mode) != Some("retune"@) {
                loaded(no_plans(), profile.header(), text->Some_0@)
            } else {
                no_plans()
            },
            r.ordered(),
    {
        let mut tuner: Tuner = Tuner {
            profile,
            dense: Vec::new(),
            grouped: Vec::new(),
            path: Tuner::place(mode, dir),
        };
        assert(tuner.tables() =~= no_plans());
        if tuner.enabled() && !is_mode(mode, "retune") {
            match text {
                Some(stored) => tuner.load(stored),
                None => {},
            }
        }
        tuner
    }
}

/// Numbers of the same digits are the same.
proof fn lemma_same_number(name: Seq<char>, a: nat, b: nat)
    requires
        name + digits(a) == name + digits(b),
    ensures
        a == b,
{
    let n = name.len() as int;
    assert((name + digits(a)).skip(n) =~= digits(a));
    assert((name + digits(b)).skip(n) =~= digits(b));
    lemma_digits_round_trip(a);
    lemma_digits_round_trip(b);
}

/// The line of a device names it alone: devices with another property have another line.
pub proof fn law_device_lines_are_distinct(a: DeviceProfile, b: DeviceProfile)
    ensures
        a.header() == b.header() <==> a == b,
{
    if a.header() == b.header() {
        lemma_header_is_a_line(a);
        lemma_header_is_a_line(b);
        let (p, q) = (a.properties(), b.properties());
        assert(p[1] == q[1] && p[2] == q[2] && p[3] == q[3] && p[4] == q[4] && p[5] == q[5] && p[6]
            == q[6]);
        lemma_same_number("device="@, a.device as nat, b.device as nat);
        lemma_same_number("cus="@, a.compute_units as nat, b.compute_units as nat);
        lemma_same_number("plane="@, a.plane_size as nat, b.plane_size as nat);
        lemma_same_number("lds="@, a.shared_memory as nat, b.shared_memory as nat);
        lemma_same_number("page="@, a.max_allocation as nat, b.max_allocation as nat);
        lemma_same_number("load="@, a.load_width as nat, b.load_width as nat);
    }
}

/// What one tuner saved gives another of the same device the same plan for every product; on any
/// other device it gives no plan, and every product falls back.
pub proof fn law_saved_plans_serve_the_same_device_only(saved: Tuner, opened: Tuner)
    requires
        saved.ordered(),
        opened.tables() == loaded(
            no_plans(),
            opened.profile.header(),
            stored_text(saved.profile.header(), saved.tables()),
        ),
    ensures
        opened.profile == saved.profile ==> {
            &&& forall|w: QMatrix, m: int, row_invariant: bool, valid: bool, fallback: Plan| #[trigger]
                opened.dense_plan(w, m, row_invariant, valid, fallback) == saved.dense_plan(
                    w,
                    m,
                    row_invariant,
                    valid,
                    fallback,
                )
            &&& forall|w: QMatrix, rows: int, tile: usize| #[trigger]
                opened.group_plan(w, rows, tile) == saved.group_plan(w, rows, tile)
        },
        opened.profile != saved.profile ==> {
            &&& forall|w: QMatrix, m: int, row_invariant: bool, valid: bool, fallback: Plan| #[trigger]
                opened.dense_plan(w, m, row_invariant, valid, fallback) == fallback
            &&& forall|w: QMatrix, rows: int, tile: usize| #[trigger]
                opened.group_plan(w, rows, tile) == (GroupPlan { bm: 32, bn: tile })
        },
{
    law_device_lines_are_distinct(saved.profile, opened.profile);
    if opened.profile == saved.profile {
        law_saved_plans_are_loaded_again(saved.profile, saved.tables());
        assert(opened.tables() == saved.tables());
    } else {
        law_plans_of_other_devices_are_not_used(
            no_plans(),
            saved.profile,
            opened.profile.header(),
            saved.tables(),
        );
        assert(opened.tables() == no_plans());
    }
}

} // verus!
