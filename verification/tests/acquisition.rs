//! What rides together on the wire.
use obd_session_rs::acquisition::{
    is_plain_mode01_data_pid, is_plain_mode22_data_pid, AcquisitionPlugin, Admission, DuePick,
    NextCommand, PluginCtx, PollPlugin, CHUNK_MAX_PIDS, PIPE_MAX_SEGMENTS,
};
use obd_session_rs::length_cache::LengthCache;
use obd_session_rs::link::elm::split_pipe_segments;

fn pick(pid: &str) -> DuePick {
    DuePick {
        pid: pid.to_string(),
        controller: None,
        timeout_ms: None,
    }
}

fn pick_ctrl(pid: &str, ctrl: Option<&str>) -> DuePick {
    DuePick {
        pid: pid.to_string(),
        controller: ctrl.map(String::from),
        timeout_ms: None,
    }
}

fn test_plugin() -> (PollPlugin, PluginCtx) {
    (
        PollPlugin::new(),
        PluginCtx {
            length_cache: LengthCache::new(),
        },
    )
}

#[test]
fn poll_plugin_wire_is_byte_identical_to_pid() {
    let (mut plugin, ctx) = test_plugin();
    for pid in [
        "010C",
        "221E35",
        "0902",
        "ATSP 0",
        "STFPA 7E8,7FF",
        "010C 1",
        "010C|010D|0105",
        "010C0D050F1104",
    ] {
        let cmd = plugin.next_command(&[pick(pid)], &ctx).unwrap();
        assert_eq!(cmd.wire, pid);
        assert_eq!(cmd.members(), vec![pid.to_string()]);
        assert_eq!(cmd.target, None);
        assert_eq!(cmd.timeout_ms, None);
    }
    assert!(plugin.next_command(&[], &ctx).is_none());
}

#[test]
fn poll_plugin_passes_target_and_timeout() {
    let (mut plugin, ctx) = test_plugin();
    let cmd = plugin
        .next_command(
            &[DuePick {
                pid: "22F40C".to_string(),
                controller: Some("7E0".to_string()),
                timeout_ms: Some(2500),
            }],
            &ctx,
        )
        .unwrap();
    assert_eq!(cmd.wire, "22F40C");
    assert_eq!(cmd.target.as_deref(), Some("7E0"));
    assert_eq!(cmd.timeout_ms, Some(2500));
}

#[test]
fn poll_plugin_joins_piped_exchange() {
    let (mut plugin, ctx) = test_plugin();
    plugin.set_pipe_capable(true);
    assert_eq!(plugin.max_picks(), PIPE_MAX_SEGMENTS);

    let due = vec![
        DuePick {
            pid: "010C".into(),
            controller: Some("7E0".into()),
            timeout_ms: Some(1000),
        },
        DuePick {
            pid: "010D".into(),
            controller: Some("7E0".into()),
            timeout_ms: None,
        },
        DuePick {
            pid: "0105".into(),
            controller: Some("7E0".into()),
            timeout_ms: Some(3000),
        },
    ];
    let cmd = plugin.next_command(&due, &ctx).unwrap();
    assert_eq!(cmd.wire, "010C|010D|0105");
    assert_eq!(cmd.members(), vec!["010C", "010D", "0105"]);
    assert_eq!(cmd.segments.len(), 3, "no chunking without capability");
    assert_eq!(cmd.target.as_deref(), Some("7E0"));
    assert_eq!(cmd.timeout_ms, Some(3000));
}

#[test]
fn poll_plugin_pipe_off_stays_serial() {
    let (mut plugin, _ctx) = test_plugin();
    assert_eq!(plugin.max_picks(), 1);
    plugin.set_pipe_capable(true);
    plugin.set_pipe_capable(false);
    assert_eq!(plugin.max_picks(), 1);
}

#[test]
fn poll_plugin_id() {
    assert_eq!(test_plugin().0.id(), "poll");
}

#[test]
fn poll_plugin_chunks_confirmed_mode01() {
    let (mut plugin, mut ctx) = test_plugin();
    plugin.set_chunk_capable(true);
    assert_eq!(plugin.max_picks(), CHUNK_MAX_PIDS);
    for (pid, len) in [("010C", 2), ("010D", 1), ("0105", 1)] {
        ctx.length_cache.record(pid, len);
    }
    let due = vec![pick("010C"), pick("010D"), pick("0105")];
    let cmd = plugin.next_command(&due, &ctx).unwrap();
    assert_eq!(cmd.wire, "01050C0D");
    assert_eq!(cmd.segments, vec![vec!["0105", "010C", "010D"]]);
}

#[test]
fn admission_routes_unconfirmed_solo() {
    let (mut plugin, mut ctx) = test_plugin();
    plugin.set_chunk_capable(true);
    ctx.length_cache.record("010C", 2);
    let a = plugin.admission();

    ctx.length_cache.record("010D", 1);
    assert!(a.fits(&[pick("010C")], &pick("010D"), &ctx.length_cache));
    assert!(!a.fits(&[pick("010C")], &pick("010F"), &ctx.length_cache));
    assert!(!a.fits(&[pick("010C")], &pick("22F40C"), &ctx.length_cache));
    assert!(!a.fits(&[pick("010C")], &pick("0100"), &ctx.length_cache));
    assert!(!a.fits(&[pick("010C")], &pick("0101"), &ctx.length_cache));
    for (i, p) in ["0104", "0105", "010B", "010D", "010F"].iter().enumerate() {
        ctx.length_cache.record(p, (i + 1) as u8);
    }
    let six: Vec<DuePick> = ["010C", "0104", "0105", "010B", "010D", "010F"]
        .iter()
        .map(|p| pick(p))
        .collect();
    ctx.length_cache.record("0111", 1);
    assert!(
        !a.fits(&six, &pick("0111"), &ctx.length_cache),
        "7th member exceeds J1979's 6"
    );
}

#[test]
fn poll_plugin_composes_chunks_with_pipes() {
    let (mut plugin, mut ctx) = test_plugin();
    plugin.set_pipe_capable(true);
    plugin.set_chunk_capable(true);
    for (pid, len) in [("010C", 2), ("010D", 1)] {
        ctx.length_cache.record(pid, len);
    }
    let due = vec![pick("010C"), pick("010D"), pick("0105")];
    let cmd = plugin.next_command(&due, &ctx).unwrap();
    assert_eq!(cmd.wire, "010C0D|0105");
    assert_eq!(
        cmd.segments,
        vec![vec!["010C".to_string(), "010D".into()], vec!["0105".into()]]
    );
}

#[test]
fn poll_plugin_adapter_chunk_cap() {
    let (mut plugin, _ctx) = test_plugin();
    plugin.set_chunk_capable(true);
    plugin.set_chunk_cap(3);
    assert_eq!(plugin.max_picks(), 3);
    assert_eq!(plugin.admission().chunk_limit, 3);
    assert_eq!(plugin.clamp_chunk(), 1, "3 → 1 (integer halving)");
    plugin.set_chunk_capable(true);
    plugin.set_chunk_cap(0);
    assert_eq!(plugin.admission().chunk_limit, 1);
}

#[test]
fn composed_capacity_six_chunks_of_six() {
    let (mut plugin, mut ctx) = test_plugin();
    plugin.set_pipe_capable(true);
    plugin.set_chunk_capable(true);
    assert_eq!(plugin.max_picks(), PIPE_MAX_SEGMENTS * CHUNK_MAX_PIDS);

    let pids: Vec<String> = (0x02..=0x60)
        .filter(|b| !matches!(b, 0x20 | 0x40 | 0x60))
        .take(36)
        .map(|b| format!("01{b:02X}"))
        .collect();
    assert_eq!(pids.len(), 36);
    for p in &pids {
        ctx.length_cache.record(p, 1);
    }
    let due: Vec<DuePick> = pids.iter().map(|p| pick(p)).collect();
    let cmd = plugin.next_command(&due, &ctx).unwrap();
    assert_eq!(cmd.segments.len(), 6, "6 chunks");
    assert!(cmd.segments.iter().all(|s| s.len() == 6), "6 pids each");
    assert_eq!(cmd.wire.matches('|').count(), 5);
    assert_eq!(cmd.members().len(), 36);
    for piece in cmd.wire.split('|') {
        assert_eq!(piece.len(), 14);
        assert!(piece.starts_with("01"));
    }

    let mut mixed = due.clone();
    for i in 0..6 {
        mixed.push(pick(&format!("22AA{i:02X}")));
    }
    let a = plugin.admission();
    let extra_solo = pick("22AAFF");
    assert!(
        !a.fits(&mixed, &extra_solo, &ctx.length_cache),
        "13th segment must be refused"
    );
    let last = mixed.pop().unwrap();
    assert!(a.fits(&mixed, &last, &ctx.length_cache), "12th segment fits");
}

#[test]
fn mode22_chunk_state_ladder_and_wire() {
    let (mut plugin, mut ctx) = test_plugin();
    ctx.length_cache.record("22F40C", 2);
    ctx.length_cache.record("22F405", 1);
    ctx.length_cache.record("22038F", 1);
    let due = vec![pick("22F40C"), pick("22F405"), pick("22038F")];

    assert_eq!(plugin.max_picks(), 1);
    assert!(plugin
        .admission()
        .chunk_class("22F40C", &ctx.length_cache)
        .is_none());

    plugin.set_mode22_enabled(true);
    assert_eq!(plugin.max_picks(), 2);
    let a = plugin.admission();
    let groups = a.group(&due, &ctx.length_cache);
    assert_eq!(groups.len(), 2, "pair + solo: {groups:?}");
    assert_eq!(groups[0].len(), 2);

    assert!(plugin.note_mode22_chunk_outcome(true, 2));
    assert!(
        !plugin.note_mode22_chunk_outcome(true, 2),
        "no change second time"
    );
    let cmd = plugin.next_command(&due, &ctx).unwrap();
    assert_eq!(cmd.wire, "22F405F40C|22038F");
    assert_eq!(
        cmd.segments,
        vec![
            vec!["22F405".to_string(), "22F40C".to_string()],
            vec!["22038F".to_string()],
        ]
    );

    assert!(plugin.note_mode22_chunk_outcome(false, 2));
    assert!(plugin
        .admission()
        .chunk_class("22F40C", &ctx.length_cache)
        .is_none());
    let cmd = plugin.next_command(&[pick("22F40C")], &ctx).unwrap();
    assert_eq!(cmd.wire, "22F40C", "solo pass-through untouched");
}

#[test]
fn mode22_chunks_never_mix_modes_or_controllers() {
    let (mut plugin, mut ctx) = test_plugin();
    plugin.set_pipe_capable(true);
    plugin.set_chunk_capable(true);
    plugin.set_mode22_enabled(true);
    plugin.note_mode22_chunk_outcome(true, 2);
    for (p, l) in [("010C", 2), ("010D", 1), ("22F40C", 2), ("22F405", 1)] {
        ctx.length_cache.record(p, l);
    }
    let due = vec![
        pick("010C"),
        pick("010D"),
        pick_ctrl("22F40C", Some("7E0")),
        pick_ctrl("22F405", Some("7E0")),
    ];
    let cmd = plugin.next_command(&due, &ctx).unwrap();
    assert_eq!(cmd.wire, "010C0D|22F405F40C", "one chunk per mode, piped");

    let split_targets = vec![
        pick_ctrl("22F40C", Some("7E0")),
        pick_ctrl("22F405", Some("7E1")),
    ];
    let a = plugin.admission();
    let groups = a.group(&split_targets, &ctx.length_cache);
    assert_eq!(groups.len(), 2, "cross-ECU multi-DID is not a thing");
}

#[test]
fn plain_mode22_data_pid_filter() {
    assert!(is_plain_mode22_data_pid("22F40C"));
    assert!(is_plain_mode22_data_pid("221E12"));
    assert!(is_plain_mode22_data_pid("222222"));
    for bad in ["22F200", "220012", "010C", "22F40C05", "22", "22F4 0C"] {
        assert!(!is_plain_mode22_data_pid(bad), "{bad}");
    }
}

#[test]
fn mode22_respects_adapter_cap_and_clamp() {
    let (mut plugin, mut ctx) = test_plugin();
    ctx.length_cache.record("22F40C", 2);
    ctx.length_cache.record("22F405", 1);
    plugin.set_mode22_enabled(true);
    plugin.note_mode22_chunk_outcome(true, 2);
    plugin.set_chunk_cap(2);
    assert_eq!(plugin.admission().chunk22_limit, 2);
    plugin.clamp_chunk();
    assert!(plugin
        .admission()
        .chunk_class("22F40C", &ctx.length_cache)
        .is_none());
}

#[test]
fn plain_mode01_data_pid_filter() {
    assert!(is_plain_mode01_data_pid("010C"));
    assert!(is_plain_mode01_data_pid("015C"));
    for bad in [
        "0100", "0120", "0140", "0160", "0101", "22F40C", "0902", "010C0D", "01", "010C 1",
    ] {
        assert!(!is_plain_mode01_data_pid(bad), "{bad}");
    }
}

#[test]
fn plugin_ctx_pid_len() {
    let mut ctx = PluginCtx {
        length_cache: LengthCache::new(),
    };
    assert_eq!(ctx.pid_len("22F40C"), None);
    ctx.length_cache.record("22F40C", 2);
    assert_eq!(ctx.pid_len("22f40c"), Some(2));
}

#[test]
fn split_bench_three_segment_blob() {
    let blob = "7E8 04 41 0C 3F F3 \r7E9 04 41 0C 3F F3 \r\r|7E8 03 41 0D 73 \r7E9 03 41 0D 73 \r7EA 03 41 0D 73 \r\r|7E8 03 41 05 43 \r7E9 03 41 05 43";
    let segs = split_pipe_segments(blob);
    assert_eq!(segs.len(), 3);
    assert_eq!(segs[0], "7E8 04 41 0C 3F F3 \r7E9 04 41 0C 3F F3");
    assert_eq!(segs[2], "7E8 03 41 05 43 \r7E9 03 41 05 43");
}

#[test]
fn split_keeps_no_data_positions() {
    let blob = "7E8 03 41 04 32 \r\r|NO DATA\r\r|7E8 03 41 0F 41";
    let segs = split_pipe_segments(blob);
    assert_eq!(segs, vec!["7E8 03 41 04 32", "NO DATA", "7E8 03 41 0F 41"]);
}

#[test]
fn split_single_segment_is_identity() {
    assert_eq!(
        split_pipe_segments("7E8 04 41 0C 3F F3"),
        vec!["7E8 04 41 0C 3F F3"]
    );
}

#[test]
fn split_abort_tail_yields_fewer_segments() {
    let blob = "7E8 04 41 0C 3F F3 \r\r|?";
    let segs = split_pipe_segments(blob);
    assert_eq!(segs.len(), 2);
    assert_eq!(segs[1], "?");
}

#[test]
fn every_due_pick_rides_once() {
    let (mut plugin, mut ctx) = test_plugin();
    plugin.set_pipe_capable(true);
    plugin.set_chunk_capable(true);
    for p in ["010C", "010D", "0105"] {
        ctx.length_cache.record(p, 1);
    }
    let due: Vec<DuePick> = ["0902", "010C", "22F40C", "010D", "0105", "010F"]
        .iter()
        .map(|p| pick(p))
        .collect();
    let cmd = plugin.next_command(&due, &ctx).unwrap();
    let mut members = cmd.members();
    members.sort();
    assert_eq!(members, vec!["0105", "010C", "010D", "010F", "0902", "22F40C"]);
}

#[test]
fn excluded_pids_ride_alone() {
    let (mut plugin, mut ctx) = test_plugin();
    plugin.set_chunk_capable(true);
    ctx.length_cache.record("010C", 2);
    ctx.length_cache.record("010D", 1);
    plugin.exclude_from_chunks(" 010d ");
    let a = plugin.admission();
    assert!(a.is_chunk_member("010C", &ctx.length_cache));
    assert!(!a.is_chunk_member("010D", &ctx.length_cache));
    plugin.set_chunk_capable(false);
    plugin.set_chunk_capable(true);
    assert!(plugin.admission().is_chunk_member("010D", &ctx.length_cache));
}

struct Plain;

impl AcquisitionPlugin for Plain {
    fn id(&self) -> &'static str {
        "plain"
    }

    fn admission(&self) -> Admission {
        Admission::single()
    }

    fn next_command(&mut self, due: &[DuePick], _ctx: &PluginCtx) -> Option<NextCommand> {
        due.first().map(|p| NextCommand {
            wire: p.pid.clone(),
            segments: vec![vec![p.pid.clone()]],
            target: p.controller.clone(),
            timeout_ms: p.timeout_ms,
        })
    }
}

#[test]
fn a_plugin_need_not_care_for_capabilities() {
    let mut p = Plain;
    assert_eq!(p.id(), "plain");
    p.set_pipe_capable(true);
    p.set_chunk_capable(true);
    p.set_mode22_enabled(true);
    p.set_chunk_cap(3);
    p.exclude_from_chunks("010C");
    assert_eq!(p.max_picks(), 1);
    assert_eq!(p.clamp_chunk(), 1);
    assert!(!p.note_mode22_chunk_outcome(true, 2));
    assert_eq!(p.admission().max_segments, 1);
}

#[test]
fn without_chunks_picks_keep_their_order() {
    let (mut plugin, ctx) = test_plugin();
    plugin.set_pipe_capable(true);
    let due = [pick("010D"), pick("0105"), pick("010C")];
    let cmd = plugin.next_command(&due, &ctx).unwrap();
    assert_eq!(cmd.wire, "010D|0105|010C");
    assert_eq!(cmd.members(), vec!["010D", "0105", "010C"]);
}

#[test]
fn a_sign_makes_no_data_pid() {
    assert!(!is_plain_mode01_data_pid("01+5"));
    assert!(!is_plain_mode22_data_pid("22+123"));
    assert!(is_plain_mode01_data_pid(" 010c "));
    assert!(is_plain_mode22_data_pid("22f40c"));
}

#[test]
fn a_refused_pair_stays_refused() {
    let (mut plugin, mut ctx) = test_plugin();
    ctx.length_cache.record("22F40C", 2);
    assert!(!plugin.note_mode22_chunk_outcome(true, 2));
    assert_eq!(plugin.admission().chunk22_limit, 1);
    plugin.set_mode22_enabled(true);
    assert!(plugin.note_mode22_chunk_outcome(false, 2));
    assert!(!plugin.note_mode22_chunk_outcome(true, 2));
    assert_eq!(plugin.admission().chunk22_limit, 1);
    plugin.set_mode22_enabled(true);
    assert!(plugin.note_mode22_chunk_outcome(true, 2));
    assert_eq!(plugin.admission().chunk22_limit, 2);
}

#[test]
fn segments_lose_the_blanks_around_them() {
    assert_eq!(
        split_pipe_segments("\t7E8 04\t41 0C\r|\r\n 7E8 03 41 0D \t"),
        vec!["7E8 04\t41 0C".to_string(), "7E8 03 41 0D".to_string()]
    );
}

#[test]
fn filling_uses_as_few_chunks_as_it_must() {
    let mut lengths = LengthCache::new();
    let mut due = Vec::new();
    for n in 0..13 {
        let pid = format!("01{:02X}", 0x02 + n);
        lengths.record(&pid, 1);
        due.push(pick(&pid));
        let did = format!("22AB{n:02X}");
        lengths.record(&did, 2);
        due.push(pick_ctrl(&did, Some(if n % 2 == 0 { "7E0" } else { "7E1" })));
    }
    let admission = Admission {
        max_segments: 12,
        chunk_limit: 6,
        chunk22_limit: 2,
        chunk_excluded: Vec::new(),
    };
    let groups = admission.group(&due, &lengths);
    let count = |f: &dyn Fn(&DuePick) -> bool| groups.iter().filter(|g| f(g[0])).count();
    assert_eq!(count(&|p| p.pid.starts_with("01")), 3, "13 of six each");
    assert_eq!(count(&|p| p.controller.as_deref() == Some("7E0")), 4, "7 of two each");
    assert_eq!(count(&|p| p.controller.as_deref() == Some("7E1")), 3, "6 of two each");
    assert_eq!(groups.iter().map(|g| g.len()).sum::<usize>(), 26);
}
