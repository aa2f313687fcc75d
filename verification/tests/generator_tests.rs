use cannyls_bencher::generator::workload_to_real_commands;
use cannyls_bencher::parse::parse_workload;
use cannyls_bencher::{Command, RealCommand, Section, Statement, Workload};

fn one(c: Command) -> Statement {
    Statement(vec![c])
}

#[test]
fn compiling_twice_is_deterministic() {
    let w = Workload {
        seed: Some(7),
        sections: vec![Section::Unordered(
            50,
            vec![
                (40, one(Command::NewPut(64))),
                (30, one(Command::RandomGet)),
                (30, one(Command::RandomDelete)),
            ],
        )],
    };
    let (c1, p1) = workload_to_real_commands(&w);
    let (c2, p2) = workload_to_real_commands(&w);
    assert_eq!(c1, c2);
    assert_eq!(p1, p2);
}

#[test]
fn example_end_to_end() {
    let text = b"
Seed: 0;
Unordered[100] {
  <30%> New(128);
  <30%> Get;
  <20%> OverWrite(43);
  <20%> Delete;
}
";
    let w = parse_workload(text).unwrap();
    let (c1, p1) = workload_to_real_commands(&w);
    let (c2, p2) = workload_to_real_commands(&w);
    assert_eq!(c1, c2);
    assert_eq!(p1, p2);
    assert!(c1.len() <= 100);

    let news = c1
        .iter()
        .filter(|c| matches!(c, RealCommand::Put(_, 128)))
        .count();
    let gets = c1
        .iter()
        .filter(|c| matches!(c, RealCommand::Get(_, _)))
        .count();
    let overwrites = c1
        .iter()
        .filter(|c| matches!(c, RealCommand::Put(_, 43)))
        .count();
    let deletes = c1
        .iter()
        .filter(|c| matches!(c, RealCommand::Delete(_, _)))
        .count();
    assert_eq!(news, 30);
    assert!(gets <= 30);
    assert!(overwrites <= 20);
    assert!(deletes <= 20);

    // A different seed still compiles to a consistent but different run.
    let w1 = Workload {
        seed: Some(1),
        ..w
    };
    let (c3, _p3) = workload_to_real_commands(&w1);
    assert!(c1 != c3);
}

#[test]
fn keys_are_strictly_increasing_and_never_reused() {
    let w = Workload {
        seed: Some(3),
        sections: vec![
            Section::Ordered(
                40,
                vec![(50, one(Command::NewPut(8))), (50, one(Command::RandomDelete))],
            ),
            Section::Commands(vec![Command::Times(5, vec![Command::NewPut(16)])]),
        ],
    };
    let (cmds, _peak) = workload_to_real_commands(&w);
    // No overwrites in this workload, so every Put or Embed is a fresh
    // allocation; the keys they carry must be strictly increasing.
    let mut last: Option<u128> = None;
    for c in &cmds {
        if let RealCommand::Put(k, _) | RealCommand::Embed(k, _) = c {
            if let Some(prev) = last {
                assert!(*k > prev);
            } else {
                assert_eq!(*k, 1);
            }
            last = Some(*k);
        }
    }
    assert_eq!(last, Some(25));
}

#[test]
fn empty_live_set_operations_are_silently_skipped() {
    let w = Workload {
        seed: None,
        sections: vec![Section::Commands(vec![
            Command::RandomGet,
            Command::RandomDelete,
            Command::Overwrite(99),
            Command::DeleteRange(0, 100),
        ])],
    };
    let (cmds, peak) = workload_to_real_commands(&w);
    assert_eq!(cmds, Vec::new());
    assert_eq!(peak, 0);
}

#[test]
fn emitted_reads_only_reference_live_keys() {
    let text = b"
Seed: 11;
Unordered[60] {
  <40%> New(10);
  <30%> Get;
  <30%> Delete;
}
";
    let w = parse_workload(text).unwrap();
    let (cmds, _peak) = workload_to_real_commands(&w);
    let mut live: Vec<(u128, usize)> = Vec::new();
    for c in &cmds {
        match c {
            RealCommand::Put(k, s) | RealCommand::Embed(k, s) => {
                // Without overwrites, every put is a fresh allocation.
                assert!(live.iter().all(|(lk, _)| lk != k));
                live.push((*k, *s));
            }
            RealCommand::Get(k, s) => {
                assert!(live.contains(&(*k, *s)));
            }
            RealCommand::Delete(k, s) => {
                let pos = live.iter().position(|e| e == &(*k, *s));
                assert!(pos.is_some());
                live.remove(pos.unwrap());
            }
            RealCommand::DeleteRange(_, _) => {}
        }
    }
}

#[test]
fn frequency_expansion_is_exact() {
    for (freq, expected) in [(0u8, 0usize), (1, 1), (37, 37), (99, 99), (100, 100)] {
        let w = Workload {
            seed: None,
            sections: vec![Section::Ordered(100, vec![(freq, one(Command::NewPut(1)))])],
        };
        let (cmds, _peak) = workload_to_real_commands(&w);
        assert_eq!(cmds.len(), expected);
    }
}

#[test]
fn frequency_expansion_truncates() {
    // 33 iterations at 50% truncate to 16 instances.
    let w = Workload {
        seed: None,
        sections: vec![Section::Ordered(33, vec![(50, one(Command::NewPut(1)))])],
    };
    let (cmds, _peak) = workload_to_real_commands(&w);
    assert_eq!(cmds.len(), 16);
}

#[test]
fn delete_range_of_an_empty_band_removes_nothing() {
    let mut literal = Vec::new();
    for _ in 0..10 {
        literal.push(Command::NewPut(1));
    }
    literal.push(Command::DeleteRange(50, 50));
    for _ in 0..10 {
        literal.push(Command::RandomDelete);
    }
    let w = Workload {
        seed: None,
        sections: vec![Section::Commands(literal)],
    };
    let (cmds, peak) = workload_to_real_commands(&w);
    // 10 puts, the range delete, and — since the empty band removed
    // nothing — all 10 deletes still find a live key.
    assert_eq!(cmds.len(), 21);
    // With 10 live keys and a 50..50 window, both bounds land on
    // position 5, whose key is 6; the half-open band [5, 5) is empty.
    assert_eq!(cmds[10], RealCommand::DeleteRange(6, 6));
    let deletes = cmds
        .iter()
        .filter(|c| matches!(c, RealCommand::Delete(_, _)))
        .count();
    assert_eq!(deletes, 10);
    assert_eq!(peak, 10);
}

#[test]
fn delete_range_drains_the_half_open_band() {
    let mut literal = Vec::new();
    for _ in 0..10 {
        literal.push(Command::NewPut(1));
    }
    // 0% to 50% of 10 live keys: positions 0 through 4 leave, keys 1-5.
    literal.push(Command::DeleteRange(0, 50));
    for _ in 0..10 {
        literal.push(Command::RandomDelete);
    }
    let w = Workload {
        seed: Some(2),
        sections: vec![Section::Commands(literal)],
    };
    let (cmds, _peak) = workload_to_real_commands(&w);
    assert_eq!(cmds[10], RealCommand::DeleteRange(1, 6));
    // Only 5 keys remain live, so only 5 of the 10 deletes are emitted.
    let deletes = cmds
        .iter()
        .filter(|c| matches!(c, RealCommand::Delete(_, _)))
        .count();
    assert_eq!(deletes, 5);
    for c in &cmds[11..] {
        if let RealCommand::Delete(k, _) = c {
            assert!(*k >= 6);
        }
    }
}

#[test]
fn peak_bytes_tracks_the_high_water_mark() {
    let w = Workload {
        seed: None,
        sections: vec![Section::Commands(vec![
            Command::NewPut(100),
            Command::NewPut(200),
            Command::RandomDelete,
            Command::NewPut(10),
        ])],
    };
    let (cmds, peak) = workload_to_real_commands(&w);
    assert_eq!(cmds.len(), 4);
    assert_eq!(peak, 300);
}

#[test]
fn times_replays_its_command_list() {
    let w = Workload {
        seed: None,
        sections: vec![Section::Commands(vec![Command::Times(
            3,
            vec![Command::NewPut(5), Command::NewPut(7)],
        )])],
    };
    let (cmds, peak) = workload_to_real_commands(&w);
    assert_eq!(
        cmds,
        vec![
            RealCommand::Put(1, 5),
            RealCommand::Put(2, 7),
            RealCommand::Put(3, 5),
            RealCommand::Put(4, 7),
            RealCommand::Put(5, 5),
            RealCommand::Put(6, 7),
        ]
    );
    assert_eq!(peak, 36);
}

#[test]
fn single_point_windows_select_deterministically() {
    // Get(50, 50) on a 10-key population reads position 4 (the drawn
    // cut 5, made 0-based), whatever the burned draw returns.
    let mut literal = Vec::new();
    for _ in 0..10 {
        literal.push(Command::NewPut(2));
    }
    literal.push(Command::Get(50, 50));
    literal.push(Command::Get(0, 0));
    literal.push(Command::Get(100, 100));
    let w = Workload {
        seed: Some(9),
        sections: vec![Section::Commands(literal)],
    };
    let (cmds, _peak) = workload_to_real_commands(&w);
    assert_eq!(cmds[10], RealCommand::Get(5, 2));
    assert_eq!(cmds[11], RealCommand::Get(1, 2));
    assert_eq!(cmds[12], RealCommand::Get(10, 2));
}

#[test]
fn inverted_windows_do_not_abort() {
    let mut literal = Vec::new();
    for _ in 0..10 {
        literal.push(Command::NewPut(1));
    }
    literal.push(Command::Get(80, 20));
    literal.push(Command::Delete(90, 10));
    let w = Workload {
        seed: Some(4),
        sections: vec![Section::Commands(literal)],
    };
    let (cmds, _peak) = workload_to_real_commands(&w);
    assert_eq!(cmds.len(), 12);
    // The degenerate window selects its own lower bound: cut 8 for
    // Get(80, 20) and cut 9 for Delete(90, 10), made 0-based.
    assert_eq!(cmds[10], RealCommand::Get(8, 1));
    assert_eq!(cmds[11], RealCommand::Delete(9, 1));
}
