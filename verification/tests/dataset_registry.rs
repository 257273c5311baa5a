//! Datasets by vehicle and bus.
use obd_session_rs::addressing::Addressing;
use obd_session_rs::dataset_registry::{DatasetCfg, MatchCfg, ModuleCfg, SessionConfig};
use serde_json::Value;

fn text(v: &Value) -> Option<String> {
    v.as_str().map(String::from)
}

fn texts(v: &Value) -> Vec<String> {
    v.as_array()
        .map(|a| a.iter().filter_map(text).collect())
        .unwrap_or_default()
}

fn match_cfg(m: &Value) -> MatchCfg {
    MatchCfg {
        wmis: texts(&m["wmis"]),
        addressing: text(&m["addressing"]),
        positions: m["positions"]
            .as_object()
            .map(|o| o.iter().map(|(k, v)| (k.clone(), texts(v))).collect())
            .unwrap_or_default(),
    }
}

fn module(m: &Value) -> ModuleCfg {
    ModuleCfg {
        name: text(&m["name"]).unwrap_or_default(),
        id: text(&m["id"]),
        priority: text(&m["priority"]),
        format: text(&m["format"]),
        target: text(&m["target"]),
        source: text(&m["source"]),
        bus: text(&m["bus"]),
    }
}

/// The datasets of a JSON text.
fn config(json: &str) -> SessionConfig {
    let v: Value = serde_json::from_str(json).unwrap();
    SessionConfig {
        version: v["version"].as_u64().unwrap() as u32,
        datasets: v["datasets"]
            .as_array()
            .unwrap()
            .iter()
            .map(|d| DatasetCfg {
                id: text(&d["id"]).unwrap(),
                match_cfg: d.get("match").map(match_cfg),
                identify: None,
                modules: d["modules"]
                    .as_array()
                    .map(|a| a.iter().map(module).collect())
                    .unwrap_or_default(),
                dtc_read: text(&d["dtcRead"]),
                rules: vec![],
                stream_profiles: None,
            })
            .collect(),
    }
}

const BLOB: &str = r#"{
    "version": 1,
    "datasets": [
        { "id": "Ford Extended", "displayName": "Ford Extended",
          "match": { "wmis": ["1FA", "1ZV"] }, "hasPids": true },
        { "id": "gm_global_a", "displayName": "GM Global A",
          "match": { "wmis": ["1G1", "1GC", "1G "], "addressing": "11bit" },
          "capabilities": { "gmGlobal": "true" }, "dtcRead": "gmlanA9",
          "modules": [ { "name": "ECM", "id": "7E0" }, { "name": "EPB", "id": "254" } ] },
        { "id": "gm_global_b",
          "match": { "wmis": ["1G1", "1GC", "1G "], "addressing": "29bit" },
          "dtcRead": "uds19",
          "modules": [ { "name": "ECM", "priority": "14", "format": "DA",
                         "target": "11", "source": "F1" },
                       { "name": "LCM", "priority": "14", "format": "DA",
                         "target": "41", "source": "F1" } ] }
    ]
}"#;

#[test]
fn resolves_gm_variant_by_addressing() {
    let cfg = config(BLOB);
    let b = cfg
        .resolve("1GCUYDED4LZ123456", &Addressing::Can29 { tester: 0xF1 })
        .unwrap();
    assert_eq!(b.id, "gm_global_b");
    assert_eq!(b.dtc_read.as_deref(), Some("uds19"));
    assert_eq!(b.modules[1].request_header().as_deref(), Some("14DA41F1"));

    let a = cfg
        .resolve("1GCUYDED4LZ123456", &Addressing::Can11)
        .unwrap();
    assert_eq!(a.id, "gm_global_a");
    assert_eq!(a.modules[1].request_header().as_deref(), Some("254"));
}

#[test]
fn family_key_and_undeclared_addressing() {
    let cfg = config(BLOB);
    assert_eq!(
        cfg.resolve("1GZ1234567F123456", &Addressing::Can11)
            .unwrap()
            .id,
        "gm_global_a"
    );
    assert_eq!(
        cfg.resolve("1ZVSYNTH0CMSTNG50", &Addressing::Can11)
            .unwrap()
            .id,
        "Ford Extended"
    );
    assert_eq!(
        cfg.resolve("1ZVSYNTH0CMSTNG50", &Addressing::Can29 { tester: 0xF1 })
            .unwrap()
            .id,
        "Ford Extended"
    );
    assert!(cfg
        .resolve("WVWZZZ3CZWE123456", &Addressing::Can11)
        .is_none());
}

const FORD_BLOB: &str = r#"{
    "version": 1,
    "datasets": [
        { "id": "Ford Extended", "match": { "wmis": ["1FA", "1FT", "1ZV", "3FA", "WF0"] },
          "identify": { "send": "22F111", "expect": "62F111" },
          "modules": [ { "name": "PCM", "id": "7E0" },
                       { "name": "SJB", "id": "726", "bus": "ms" } ] },
        { "id": "Ford S197 GT 2011-2014",
          "match": { "wmis": ["1ZV"], "positions": { "10": ["B","C","D","E"] } },
          "identify": { "send": "22F111", "expect": "62F111" },
          "modules": [ { "name": "PCM", "id": "7E0" }, { "name": "ABS", "id": "760" } ] },
        { "id": "Ford S550 2015-2019",
          "match": { "wmis": ["1FA", "3FA", "WF0"],
                     "positions": { "10": ["F","G","H","J","K","L","M","N","P"] } } },
        { "id": "Ford S650",
          "match": { "wmis": ["1FA", "3FA", "WF0"],
                     "positions": { "10": ["R","S","T","V","W","X","Y"] } } }
    ]
}"#;

#[test]
fn positions_select_mustang_generation() {
    let cfg = config(FORD_BLOB);
    let can11 = Addressing::Can11;
    assert_eq!(
        cfg.resolve("1ZVBP8CF5C5299999", &can11).unwrap().id,
        "Ford S197 GT 2011-2014"
    );
    assert_eq!(
        cfg.resolve("1ZVHT82H485123456", &can11).unwrap().id,
        "Ford Extended"
    );
    assert_eq!(
        cfg.resolve("1FA6P8CF0G5299999", &can11).unwrap().id,
        "Ford S550 2015-2019"
    );
    assert_eq!(
        cfg.resolve("1FA6P8CF0R5299999", &can11).unwrap().id,
        "Ford S650"
    );
    assert_eq!(
        cfg.resolve("3FA6P8CF0G5299999", &can11).unwrap().id,
        "Ford S550 2015-2019"
    );
    assert_eq!(
        cfg.resolve("1FTFW1ET5DF123456", &can11).unwrap().id,
        "Ford Extended"
    );
}


#[test]
fn unreadable_places_attach_nothing() {
    let cfg = config(
        r#"{ "version": 1, "datasets": [
            { "id": "a", "match": { "wmis": ["1FA"], "positions": { "x": ["B"] } } },
            { "id": "b", "match": { "wmis": ["1FA"], "positions": { "0": ["1"] } } },
            { "id": "c", "match": { "wmis": ["1FA"], "positions": { "18": ["1"] } } }
        ] }"#,
    );
    assert!(cfg.resolve("1FA6P8CF0G5299999", &Addressing::Can11).is_none());
    assert!(cfg.resolve("1F", &Addressing::Can11).is_none());
}

#[test]
fn a_header_needs_its_parts() {
    let mut m = module(&Value::Null);
    assert_eq!(m.request_header(), None);
    m.target = Some("41".into());
    m.source = Some("F1".into());
    m.priority = Some("14".into());
    m.format = Some("DA".into());
    assert_eq!(m.request_header().as_deref(), Some("14DA41F1"));
    m.id = Some("7e0".into());
    assert_eq!(m.request_header().map(|h| h.to_uppercase()).as_deref(), Some("7E0"));
}

#[test]
fn a_code_is_cut_between_characters() {
    let cfg = config(
        r#"{ "version": 1, "datasets": [
            { "id": "plain", "match": { "wmis": ["1FA"] } },
            { "id": "wide", "match": { "wmis": ["\u00c4B"] } },
            { "id": "family", "match": { "wmis": ["\u00c4 "] } }
        ] }"#,
    );
    let id = |vin: &str| cfg.resolve(vin, &Addressing::Can11).map(|d| d.id.clone());
    assert_eq!(id("1fa6P8CF0G5299999"), Some("plain".to_string()));
    assert_eq!(id("\u{e4}b1234567"), Some("wide".to_string()), "two bytes, then one");
    assert_eq!(id("\u{e4}c1234567"), Some("family".to_string()));
    assert_eq!(id("\u{e4}"), None, "two bytes are too few");
    assert_eq!(id(""), None);
    let tried = |vin: &str| cfg.try_resolve(vin, &Addressing::Can11).map(|d| d.is_some());
    assert_eq!(tried("1FA6P8CF0G5299999"), Some(true));
    assert_eq!(tried("\u{e4}"), Some(false));
    assert_eq!(tried("WVW"), Some(false));
    assert_eq!(tried("1\u{e4}A"), None, "a character lies across the second byte's end");
    assert_eq!(tried("\u{20ac}AB"), None, "three bytes in one character");
    assert_eq!(tried("\u{131}A"), None, "shorter in upper case");
}
