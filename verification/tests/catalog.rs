//! Adapters by the names of their connectors.
use obd_session_rs::catalog::{Adapter, Catalog, Patterns};

fn patterns(names: &[&str]) -> Option<Patterns> {
    Some(Patterns {
        name_patterns: names.iter().map(|n| n.to_string()).collect(),
    })
}

fn adapter(name: &str) -> Adapter {
    Adapter {
        name: name.to_string(),
        max_chunk: None,
        supports_periodic: None,
        protocol: None,
        ble: None,
        classic: None,
        usb: None,
        wifi: None,
    }
}

fn catalog() -> Catalog {
    Catalog {
        adapters: vec![
            Adapter {
                supports_periodic: Some(true),
                ble: patterns(&["OBDLink CX"]),
                ..adapter("OBDLink CX")
            },
            Adapter {
                supports_periodic: Some(true),
                classic: patterns(&["OBDLink MX"]),
                ..adapter("OBDLink MX+")
            },
            Adapter {
                max_chunk: Some(3),
                ble: patterns(&["Dragy"]),
                ..adapter("Dragy OBD")
            },
            Adapter {
                protocol: Some("dvi".to_string()),
                ble: patterns(&["OBDX"]),
                usb: patterns(&["OBDX", "usbmodem"]),
                wifi: patterns(&["OBDX", "192.168.4.1"]),
                ..adapter("OBDX Pro VX")
            },
            Adapter {
                supports_periodic: Some(true),
                wifi: patterns(&["OBDLink MX WiFi", "192.168.0.10"]),
                ..adapter("OBDLink MX WiFi")
            },
        ],
    }
}

#[test]
fn resolves_like_the_swift_catalog() {
    let c = catalog();
    let cx = c.resolve("OBDLink CX 12345", "ble").unwrap();
    assert_eq!(
        (
            cx.adapter_name.as_str(),
            cx.supports_periodic,
            cx.protocol.as_deref()
        ),
        ("OBDLink CX", Some(true), None)
    );
    assert_eq!(
        c.resolve("OBDLink MX+ 4711", "classic")
            .unwrap()
            .adapter_name,
        "OBDLink MX+"
    );
    assert!(
        c.resolve("Something OBDLink MX", "classic").is_none(),
        "classic = prefix match"
    );
    assert_eq!(c.resolve("dragy obd", "ble").unwrap().max_chunk, Some(3));
    let vx = c
        .resolve("USB serial adapter (cu.usbmodem1234)", "usb")
        .unwrap();
    assert_eq!(vx.protocol.as_deref(), Some("dvi"));
    assert_eq!(
        c.resolve("OBDX Pro", "usb").unwrap().protocol.as_deref(),
        Some("dvi")
    );
    assert!(c.resolve("mock:default", "mock").is_none());
    let wx = c
        .resolve("OBDX Pro (WiFi) (192.168.4.1:23)", "wifi")
        .unwrap();
    assert_eq!(
        (wx.adapter_name.as_str(), wx.protocol.as_deref()),
        ("OBDX Pro VX", Some("dvi"))
    );
    let mx = c
        .resolve("OBDLink MX WiFi (192.168.0.10:35000)", "wifi")
        .unwrap();
    assert_eq!(
        (
            mx.adapter_name.as_str(),
            mx.supports_periodic,
            mx.protocol.as_deref()
        ),
        ("OBDLink MX WiFi", Some(true), None)
    );
}

#[test]
fn the_first_adapter_that_matches_counts() {
    let mut c = catalog();
    c.adapters.insert(
        0,
        Adapter {
            ble: patterns(&["OBD"]),
            ..adapter("Any")
        },
    );
    assert_eq!(c.resolve("obdlink cx", "ble").unwrap().adapter_name, "Any");
    assert!(c.resolve("obdlink cx", "serial").is_none());
    assert_eq!(c.resolve("ÉOBD", "ble").unwrap().adapter_name, "Any");
    c.adapters[0].ble = patterns(&["é"]);
    assert_eq!(c.resolve("É1", "ble").unwrap().adapter_name, "Any");
}
