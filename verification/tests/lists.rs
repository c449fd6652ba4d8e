use rita_core::dashboard::{dao_list_add, dao_list_remove};
use rita_core::identity::EthAddress;
use rita_core::interfaces::{
    comma_list_add, comma_list_remove, ethernet2mode, get_current_interface_mode,
    plan_interface_set, transform_outcome, wlan2mode, wired_uci_entry, InterfaceMode,
    InterfacesError, Outcome, TransformKind, UciOp,
};
use rita_core::interfaces::get_interfaces;
use rita_core::kernel::{command_pace, print_str_array, CommandPace};
use rita_core::middleware::{Auth, Headers};

#[test]
fn test_comma_list_remove() {
    let a = "eth0.3, eth1, eth2, eth3, eth4";

    let b = comma_list_remove(a, "eth1");
    assert_eq!(b, "eth0.3, eth2, eth3, eth4");

    let b = comma_list_remove(&b, "eth0.3");
    assert_eq!(b, "eth2, eth3, eth4");

    let b = comma_list_remove(&b, "eth4");
    assert_eq!(b, "eth2, eth3");

    let b = comma_list_remove(&b, "eth2");
    assert_eq!(b, "eth3");

    let b = comma_list_remove(&b, "eth3");
    assert_eq!(b, "");
}

#[test]
fn test_comma_list_add() {
    let a = "";

    let b = comma_list_add(a, "eth1");
    assert_eq!(b, "eth1");

    let b = comma_list_add(&b, "eth0.3");
    assert_eq!(b, "eth1, eth0.3");

    let b = comma_list_add(&b, "eth4");
    assert_eq!(b, "eth1, eth0.3, eth4");
}

#[test]
fn wired_sections_spell_their_modes() {
    assert_eq!(
        ethernet2mode("eth1", "network.rita_eth1.ifname").unwrap(),
        InterfaceMode::Mesh
    );
    assert_eq!(
        ethernet2mode("eth0", "network.lan.ifname").unwrap(),
        InterfaceMode::LAN
    );
    assert_eq!(
        ethernet2mode("eth2", "network.backhaul.ifname").unwrap(),
        InterfaceMode::WAN
    );
    assert_eq!(
        ethernet2mode("eth9", "network.other.ifname").unwrap(),
        InterfaceMode::Unknown
    );
}

#[test]
fn wireless_modes_come_from_the_radio_entry() {
    let uci = vec![
        (String::from("wireless.default_radio0.mode"), String::from("adhoc")),
        (String::from("wireless.default_radio1.mode"), String::from("ap")),
    ];
    assert_eq!(
        wlan2mode(&uci, "wlan0", "wireless.radio0.ifname").unwrap(),
        InterfaceMode::Mesh
    );
    assert_eq!(
        wlan2mode(&uci, "wlan1", "wireless.radio1.ifname").unwrap(),
        InterfaceMode::LAN
    );
    assert!(matches!(
        wlan2mode(&uci, "wlan2", "wireless.radio2.ifname"),
        Err(InterfacesError::SettingNotFound)
    ));
}

#[test]
fn current_mode_is_the_first_containing_entry() {
    let interfaces = vec![
        (String::from("eth0"), InterfaceMode::WAN),
        (String::from("wlan0"), InterfaceMode::LAN),
    ];
    assert_eq!(get_current_interface_mode(&interfaces, "wlan0"), InterfaceMode::LAN);
    assert_eq!(get_current_interface_mode(&interfaces, "eth0"), InterfaceMode::WAN);
    assert_eq!(get_current_interface_mode(&interfaces, "eth7"), InterfaceMode::Unknown);
}

#[test]
fn assignment_requests_are_validated() {
    let interfaces = vec![
        (String::from("eth0"), InterfaceMode::WAN),
        (String::from("eth1"), InterfaceMode::LAN),
        (String::from("wlan0"), InterfaceMode::Mesh),
    ];
    assert!(matches!(
        plan_interface_set(&interfaces, "eth9", InterfaceMode::Mesh),
        Err(InterfacesError::NoSuchInterface)
    ));
    assert!(matches!(
        plan_interface_set(&interfaces, "eth1", InterfaceMode::WAN),
        Err(InterfacesError::WanConflict)
    ));
    assert!(matches!(
        plan_interface_set(&interfaces, "eth0", InterfaceMode::LAN),
        Err(InterfacesError::LanConflict)
    ));
    let (kind, current) = plan_interface_set(&interfaces, "wlan0", InterfaceMode::LAN).unwrap();
    assert_eq!(kind, TransformKind::Wireless);
    assert_eq!(current, InterfaceMode::Mesh);
    let (kind, current) = plan_interface_set(&interfaces, "eth1", InterfaceMode::Mesh).unwrap();
    assert_eq!(kind, TransformKind::Wired);
    assert_eq!(current, InterfaceMode::LAN);
}

#[test]
fn wired_plan_lan_to_mesh() {
    let lan = String::from("eth0.3, eth1");
    let plan = rita_core::interfaces::ethernet_transform_plan(
        "eth1",
        InterfaceMode::LAN,
        InterfaceMode::Mesh,
        Some(&lan),
    )
    .unwrap();
    assert_eq!(plan.ops.len(), 4);
    assert_eq!(
        plan.ops[0],
        UciOp::Assign(String::from("network.lan.ifname"), String::from("eth0.3"))
    );
    assert_eq!(
        plan.ops[1],
        UciOp::Assign(String::from("network.rita_eth1"), String::from("interface"))
    );
    assert_eq!(
        plan.ops[2],
        UciOp::Assign(String::from("network.rita_eth1.ifname"), String::from("eth1"))
    );
    assert_eq!(
        plan.ops[3],
        UciOp::Assign(String::from("network.rita_eth1.proto"), String::from("static"))
    );
    assert!(plan.mesh_add);
    assert!(plan.unlisten.is_none());
    assert!(!plan.commit_wireless);
}

#[test]
fn wired_plan_mesh_to_wan_strips_dots() {
    let plan = rita_core::interfaces::ethernet_transform_plan(
        "eth0.3",
        InterfaceMode::Mesh,
        InterfaceMode::WAN,
        None,
    )
    .unwrap();
    assert_eq!(plan.unlisten, Some(String::from("eth0.3")));
    assert_eq!(plan.ops[0], UciOp::Delete(String::from("network.rita_eth03")));
    assert_eq!(
        plan.ops[1],
        UciOp::Assign(String::from("network.backhaul"), String::from("interface"))
    );
    assert_eq!(
        plan.ops[2],
        UciOp::Assign(String::from("network.backhaul.ifname"), String::from("eth0.3"))
    );
    assert_eq!(
        plan.ops[3],
        UciOp::Assign(String::from("network.backhaul.proto"), String::from("dhcp"))
    );
    assert!(plan.set_external_nic);
    assert!(!plan.clear_external_nic);
}

#[test]
fn wireless_plan_refuses_wan_and_unknown() {
    assert!(matches!(
        rita_core::interfaces::wlan_transform_plan("wlan0", InterfaceMode::LAN, InterfaceMode::WAN),
        Err(InterfacesError::WanUnsupported)
    ));
    assert!(matches!(
        rita_core::interfaces::wlan_transform_plan(
            "wlan0",
            InterfaceMode::Unknown,
            InterfaceMode::LAN
        ),
        Err(InterfacesError::UnchangeableInterface)
    ));
    assert!(matches!(
        rita_core::interfaces::wlan_transform_plan("", InterfaceMode::LAN, InterfaceMode::Mesh),
        Err(InterfacesError::InvalidName)
    ));
}

#[test]
fn wireless_plan_lan_to_mesh() {
    let plan = rita_core::interfaces::wlan_transform_plan(
        "wlan0",
        InterfaceMode::LAN,
        InterfaceMode::Mesh,
    )
    .unwrap();
    assert_eq!(plan.ops.len(), 7);
    assert_eq!(
        plan.ops[0],
        UciOp::Assign(
            String::from("wireless.default_radio0.network"),
            String::from("rita_wlan0")
        )
    );
    assert_eq!(
        plan.ops[1],
        UciOp::Assign(String::from("wireless.default_radio0.mode"), String::from("adhoc"))
    );
    assert_eq!(
        plan.ops[4],
        UciOp::Assign(String::from("network.rita_wlan0"), String::from("interface"))
    );
    assert!(plan.mesh_add);
    assert!(plan.commit_wireless);
}

#[test]
fn outcome_reverts_on_any_failure() {
    assert_eq!(transform_outcome(&vec![true, false, true], true), Outcome::Revert);
    assert_eq!(transform_outcome(&vec![true, true], false), Outcome::Commit);
    assert_eq!(transform_outcome(&vec![true, true], true), Outcome::CommitThenListen);
    assert_eq!(transform_outcome(&vec![], false), Outcome::Commit);
}

#[test]
fn wired_entries_are_classified_and_split() {
    assert!(wired_uci_entry("network.lan.proto", "static").is_none());
    assert!(wired_uci_entry("network.backhaul.ifname", "backhaul0").is_none());
    assert!(wired_uci_entry("network.lan.ifname", "lo").is_none());
    let (mode, members) = wired_uci_entry("network.lan.ifname", "eth1, eth2").unwrap();
    assert_eq!(mode, InterfaceMode::LAN);
    assert_eq!(members, vec![String::from("eth1"), String::from("eth2")]);
    let (mode, members) = wired_uci_entry("network.rita_eth3.ifname", "eth3").unwrap();
    assert_eq!(mode, InterfaceMode::Mesh);
    assert_eq!(members, vec![String::from("eth3")]);
}

#[test]
fn mode_names_for_the_dashboard() {
    assert_eq!(InterfaceMode::Mesh.to_string(), "mesh");
    assert_eq!(InterfaceMode::LAN.to_string(), "LAN");
    assert_eq!(InterfaceMode::WAN.to_string(), "WAN");
    assert_eq!(InterfaceMode::Unknown.to_string(), "unknown");
}

#[test]
fn origin_header_drops_the_port() {
    let v = Headers::origin_value("router.local:4877").unwrap();
    assert_eq!(v, "http://router.local");
    assert!(Headers::origin_value("router.local").is_none());
    assert_eq!(Headers::allow_headers_value(), "content-type");
}

#[test]
fn auth_takes_the_shared_secret_only() {
    let open_cfg: Option<String> = None;
    assert!(Auth::allows(&open_cfg, "anyone", &None));
    let cfg = Some(String::from("mesh-admin-pass"));
    assert!(Auth::allows(&cfg, "rita", &Some(String::from("mesh-admin-pass"))));
    assert!(!Auth::allows(&cfg, "rita", &Some(String::from("wrong"))));
    assert!(!Auth::allows(&cfg, "admin", &Some(String::from("mesh-admin-pass"))));
    assert!(!Auth::allows(&cfg, "rita", &None));
}

#[test]
fn argument_arrays_print_space_separated() {
    let args = vec![String::from("set"), String::from("wg0"), String::from("up")];
    assert_eq!(print_str_array(&args), " set wg0 up");
    let none: Vec<String> = Vec::new();
    assert_eq!(print_str_array(&none), "");
}

#[test]
fn slow_commands_are_flagged() {
    assert_eq!(command_pace(0), CommandPace::Fine);
    assert_eq!(command_pace(1), CommandPace::Fine);
    assert_eq!(command_pace(2), CommandPace::Slow);
    assert_eq!(command_pace(5), CommandPace::Slow);
    assert_eq!(command_pace(6), CommandPace::VerySlow);
}

#[test]
fn dao_list_add_and_remove_are_idempotent() {
    let mut list: Vec<EthAddress> = Vec::new();
    let a = EthAddress { hi: 1, lo: 10 };
    let b = EthAddress { hi: 2, lo: 20 };
    assert!(dao_list_add(&mut list, a));
    assert!(!dao_list_add(&mut list, a));
    assert!(dao_list_add(&mut list, b));
    assert_eq!(list.len(), 2);
    assert!(dao_list_remove(&mut list, a));
    assert!(!dao_list_remove(&mut list, a));
    assert_eq!(list, vec![b]);
}

#[test]
fn interface_listing_from_both_snapshots() {
    let network = vec![
        (String::from("network.lan.ifname"), String::from("eth1, eth2")),
        (String::from("network.lan.proto"), String::from("static")),
        (String::from("network.backhaul.ifname"), String::from("backhaul0")),
        (String::from("network.rita_eth3.ifname"), String::from("eth3")),
    ];
    let wireless = vec![
        (String::from("wireless.radio0.ifname"), String::from("wlan0")),
        (String::from("wireless.default_radio0.mode"), String::from("adhoc")),
    ];
    let listing = get_interfaces(&network, Some(&wireless)).unwrap();
    assert_eq!(
        listing,
        vec![
            (String::from("eth1"), InterfaceMode::LAN),
            (String::from("eth2"), InterfaceMode::LAN),
            (String::from("eth3"), InterfaceMode::Mesh),
            (String::from("wlan0"), InterfaceMode::Mesh),
        ]
    );
    // A device without WiFi lists only the wired rows.
    let wired_only = get_interfaces(&network, None).unwrap();
    assert_eq!(wired_only.len(), 3);
    // A radio without its mode entry refuses the listing.
    let broken = vec![(String::from("wireless.radio9.ifname"), String::from("wlan9"))];
    assert!(matches!(
        get_interfaces(&network, Some(&broken)),
        Err(InterfacesError::SettingNotFound)
    ));
}
