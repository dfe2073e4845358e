use jevons::kernels::buf::Buf;
use jevons::kernels::fields::{parse_size, split_lines, split_words};
use jevons::kernels::measure::{
    dense_candidates, group_candidates, pick, same_shape, synthetic_routes, Tiles, Timed,
};
use jevons::kernels::tune::{
    bucket, buckets, compute_units, is_row_invariant, DenseKey, DeviceProfile, GroupKey, GroupPlan,
    Plan, QMatrix, Tuner, Workload,
};
use jevons::kernels::work::{tune_values, Room, Task};

#[test]
fn row_buckets_cover_each_power_of_two_range() {
    assert_eq!(bucket(1), 4);
    assert_eq!(bucket(12), 16);
    assert_eq!(bucket(16), 16);
    assert_eq!(bucket(17), 32);
    assert_eq!(buckets(32, 300), vec![32, 64, 128, 256, 512]);
    assert_eq!(buckets(4, 1), vec![4]);
    assert_eq!(buckets(4, 12), vec![4, 8, 16]);
    assert_eq!(buckets(32, 4096), vec![32, 64, 128, 256, 512, 1024]);
}

#[test]
fn buffers_keep_their_allocation_under_another_length() {
    let buf = Buf::from_handle(7u64, 12);
    let words = buf.with_len(6);
    assert_eq!((buf.len(), words.len()), (12, 6));
    assert!(!buf.is_empty() && buf.with_len(0).is_empty());
    let arg = words.arg();
    assert_eq!((arg.handle, arg.stride, arg.shape), (7, 1, 6));
}

/// The plan that wins among measured times in seconds.
fn winner(times: &[(f64, char)], baseline: char) -> Option<char> {
    let timed: Vec<Timed> = times
        .iter()
        .map(|(t, _)| Timed {
            time: t.to_bits(),
            floor: (t * (1.0 - 0.05)).to_bits(),
        })
        .collect();
    let base = times.iter().position(|(_, p)| *p == baseline);
    pick(&timed, base).map(|i| times[i].1)
}

#[test]
fn heuristic_plan_is_kept_unless_clearly_slower() {
    assert_eq!(winner(&[(1.00, 'h'), (0.97, 'a')], 'h'), Some('h'));
    assert_eq!(winner(&[(1.00, 'h'), (0.90, 'a')], 'h'), Some('a'));
    assert_eq!(winner(&[(0.80, 'a'), (0.90, 'b')], 'h'), Some('a'));
    assert_eq!(winner(&[], 'h'), None);
    assert_eq!(winner(&[(0.5, 'a'), (0.5, 'b')], 'h'), Some('a'));
}

fn matrix(n: usize, k: usize, experts: usize, bytes: usize) -> QMatrix {
    QMatrix {
        fmt: 12,
        n,
        k,
        experts,
        bytes,
    }
}

fn tiles() -> Tiles {
    Tiles {
        rows: vec![32, 64, 128],
        cols: vec![64, 128],
        vector_rows: 8,
    }
}

#[test]
fn candidates_are_worthwhile_and_prompts_keep_their_rows() {
    let w = matrix(256, 1024, 1, 0);
    let canvas = dense_candidates(&w, 8, false, &tiles(), 64);
    assert_eq!(canvas[0], Plan { bm: 0, bn: 64, splits: 1 });
    assert_eq!(canvas.len(), 1 + 2 * 3);
    assert!(canvas.iter().all(|p| p.splits <= 4));
    let prompt = dense_candidates(&w, 256, true, &tiles(), 64);
    assert_eq!(prompt.len(), 5);
    assert!(prompt.iter().all(|p| is_row_invariant(*p)));
    assert_eq!(
        prompt.last(),
        Some(&Plan { bm: 128, bn: 128, splits: 1 })
    );
    assert_eq!(
        group_candidates(&matrix(64, 64, 8, 0), &vec![64, 128]),
        vec![GroupPlan { bm: 32, bn: 64 }, GroupPlan { bm: 64, bn: 64 }]
    );
}

#[test]
fn matrices_of_one_variant_are_rotated_through() {
    let a = matrix(8, 64, 1, 32 << 20);
    let b = matrix(16, 64, 1, 0);
    let groups = same_shape(&vec![a, b, a, a]);
    assert_eq!(groups, vec![vec![a, a], vec![b]]);
}

#[test]
fn each_token_is_routed_to_distinct_experts() {
    let ids = synthetic_routes(64, 8, 32);
    assert_eq!(ids[..3], [0, 13, 26]);
    for token in ids.chunks(8) {
        let mut seen = token.to_vec();
        seen.sort();
        seen.dedup();
        assert_eq!(seen.len(), 8);
    }
}

fn profile() -> DeviceProfile {
    DeviceProfile {
        device: 0,
        compute_units: 40,
        plane_size: 32,
        shared_memory: 65536,
        max_allocation: 1 << 40,
        load_width: 128,
    }
}

fn tuner() -> Tuner {
    Tuner::new(profile(), None, Some("/cache"), None)
}

fn dense_key(n: usize, row_invariant: bool) -> DenseKey {
    DenseKey {
        fmt: 12,
        n,
        k: 1024,
        bucket: 16,
        row_invariant,
    }
}

#[test]
fn saved_plans_are_loaded_again() {
    let mut first = tuner();
    let plan = |bm| Plan { bm, bn: 64, splits: 1 };
    first.insert_dense(dense_key(512, true), plan(64));
    first.insert_dense(dense_key(256, true), plan(32));
    first.insert_dense(dense_key(256, false), plan(0));
    first.insert_dense(dense_key(512, true), plan(128));
    let group = GroupKey {
        fmt: 14,
        n: 64,
        k: 64,
        experts: 8,
        bucket: 4,
    };
    first.insert_grouped(group, GroupPlan { bm: 32, bn: 64 });
    let text = first.save();
    assert_eq!(
        text,
        "v2 device=0 cus=40 plane=32 lds=65536 page=1099511627776 load=128\n\
         dense 12 256 1024 16 0 0 64 1\n\
         dense 12 256 1024 16 1 32 64 1\n\
         dense 12 512 1024 16 1 128 64 1\n\
         grouped 14 64 64 8 4 32 64\n"
    );
    let mut second = tuner();
    second.load(&text);
    assert_eq!(second.dense, first.dense);
    assert_eq!(second.grouped, first.grouped);
    let w = matrix(512, 1024, 1, 0);
    assert_eq!(second.stored_dense(&w, 13, true), Some(plan(128)));
    assert_eq!(second.dense(&w, 13, true, true, plan(16)), plan(128));
    assert_eq!(second.dense(&w, 13, true, false, plan(16)), plan(16));
    assert_eq!(second.grouped(&matrix(64, 64, 8, 0), 3, 64).bm, 32);
    let mut other = tuner();
    other.profile.compute_units = 60;
    other.load(&text);
    assert!(other.dense.is_empty());
    let mut damaged = tuner();
    damaged.load(&text.replace("512", "x"));
    assert_eq!(damaged.dense.len(), 2);
}

#[test]
fn missing_plans_that_fit_the_buffers_are_measured() {
    let w = matrix(256, 1024, 1, 0);
    let e = matrix(64, 64, 8, 0);
    let work = Workload {
        dense: vec![w, w],
        grouped: vec![e],
        top_k: 2,
        prefill_rows: 16,
        canvas_rows: 4,
    };
    let room = Room {
        x: 8 * 1024,
        out: 1 << 20,
        routes: 16,
    };
    let mut tuner = tuner();
    let mut known = dense_key(256, true);
    known.bucket = 4;
    tuner.insert_dense(known, Plan { bm: 32, bn: 64, splits: 1 });
    assert_eq!(
        tuner.tune(&work, &room),
        vec![
            Task::Dense { group: 0, rows: 8, row_invariant: true },
            Task::Dense { group: 0, rows: 4, row_invariant: false },
            Task::Grouped { group: 0, rows: 4 },
            Task::Grouped { group: 0, rows: 8 },
        ]
    );
    tuner.path = None;
    assert!(tuner.tune(&work, &room).is_empty());
    assert_eq!(tune_values(&work, 16, true), 16 * 1024);
    assert_eq!(tune_values(&work, 16, false), 16 * 256);
}

#[test]
fn numbers_words_and_lines_are_split_like_the_standard_library() {
    for text in ["", "a", "a\nb", "a\r\nb\n", "\n\n", "x\r", " a\tb  c ", "\u{3000}x\u{a0}y"] {
        let lines: Vec<&str> = text.lines().collect();
        assert_eq!(split_lines(text), lines, "{text:?}");
        let words: Vec<&str> = text.split_whitespace().collect();
        assert_eq!(split_words(text), words, "{text:?}");
    }
    for text in ["", "+", "0", "+7", "007", "-1", "1x", "18446744073709551615", "18446744073709551616"] {
        assert_eq!(parse_size(text), text.parse::<usize>().ok(), "{text:?}");
    }
    assert_eq!(compute_units(Some("60"), Some(20)), 60);
    assert_eq!(compute_units(Some("0"), Some(20)), 20);
    assert_eq!(compute_units(None, None), 40);
}

#[test]
fn a_few_groups_keep_every_unit_busy() {
    assert_eq!(profile().groups_target(), 160);
}

#[test]
fn tuners_open_the_plans_stored_for_their_device() {
    let mut first = tuner();
    first.insert_grouped(
        GroupKey { fmt: 12, n: 256, k: 128, experts: 8, bucket: 32 },
        GroupPlan { bm: 64, bn: 128 },
    );
    first.insert_dense(dense_key(512, true), Plan { bm: 64, bn: 64, splits: 1 });
    let text = first.save();
    let open = |profile: DeviceProfile, mode: Option<&str>| {
        Tuner::new(profile, mode, Some("/cache"), Some(&text))
    };
    let w = matrix(256, 128, 8, 4096);
    let again = open(profile(), None);
    assert_eq!(again.save(), text);
    assert_eq!(again.path.as_deref(), Some("/cache/autotune.txt"));
    assert_eq!(again.grouped(&w, 30, 64), GroupPlan { bm: 64, bn: 128 });
    assert_eq!(again.grouped(&w, 17, 64), again.grouped(&w, 32, 64));
    let other = open(DeviceProfile { load_width: 64, ..profile() }, None);
    assert_eq!(other.grouped(&w, 30, 64), GroupPlan::heuristic(64));
    assert!(other.dense.is_empty() && other.grouped.is_empty());
    let retuned = open(profile(), Some("retune"));
    assert!(retuned.enabled() && retuned.dense.is_empty());
    for off in ["0", "off"] {
        let plain = open(profile(), Some(off));
        assert!(!plain.enabled() && plain.dense.is_empty());
    }
    assert!(!Tuner::new(profile(), None, None, Some(&text)).enabled());
}
