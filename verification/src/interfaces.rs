//! Assigning router interfaces to their roles — mesh, LAN, WAN — by
//! reading and rewriting UCI configuration.
//!
//! Everything here computes on configuration text handed in by the
//! caller: which mode a section name or wireless mode string spells,
//! how a comma-separated interface list changes, and which UCI edits
//! transform an interface from one mode to another. Running the edits
//! against the kernel, and reverting or committing them, stays
//! outside; `transform_outcome` says which of the two to do.

use vstd::prelude::*;
use vstd::string::StrSliceExecFns;
use vstd::string::StringExecFns;

use crate::strtool::{
    contains_sub, match_at, spec_contains, spec_first_comma_char, spec_match_at, spec_remove_all,
    spec_trim, str_eq, trim_bounds,
};

verus! {

/// The role an interface plays.
#[derive(Clone, Copy, PartialEq, Eq, Structural, Debug)]
pub enum InterfaceMode {
    Mesh,
    LAN,
    WAN,
    /// Ambiguous wireless modes like monitor or promiscuous.
    Unknown,
}

impl InterfaceMode {
    /// The mode's name as the dashboard prints it.
    pub fn to_string(&self) -> (r: String)
        ensures
            r@ == (match *self {
                InterfaceMode::Mesh => "mesh"@,
                InterfaceMode::LAN => "LAN"@,
                InterfaceMode::WAN => "WAN"@,
                InterfaceMode::Unknown => "unknown"@,
            }),
    {
        match self {
            InterfaceMode::Mesh => String::from_str("mesh"),
            InterfaceMode::LAN => String::from_str("LAN"),
            InterfaceMode::WAN => String::from_str("WAN"),
            InterfaceMode::Unknown => String::from_str("unknown"),
        }
    }
}

/// Why an interface assignment was refused.
#[derive(Clone, Copy, PartialEq, Eq, Structural, Debug)]
pub enum InterfacesError {
    /// A UCI entry the transformation needs is missing.
    SettingNotFound,
    /// An interface in an ambiguous mode cannot be changed.
    UnchangeableInterface,
    /// Wireless interfaces do not take the WAN role.
    WanUnsupported,
    /// There can be only one WAN interface.
    WanConflict,
    /// There can be only one LAN ethernet interface.
    LanConflict,
    /// The named interface is not present or not available.
    NoSuchInterface,
    /// The interface name is empty or malformed.
    InvalidName,
}

/// A request to move one interface to a mode.
#[derive(Clone, Debug, PartialEq)]
pub struct InterfaceToSet {
    pub interface: String,
    pub mode: InterfaceMode,
}

/// The dashboard message asking for the interface listing.
#[derive(Clone, Copy, PartialEq, Eq, Structural, Debug)]
pub struct GetInterfaces;

/// Add an entry to a comma-delimited list.
pub fn comma_list_add(list: &str, entry: &str) -> (r: String)
    ensures
        list@.len() > 0 ==> r@ == list@ + seq![',', ' '] + entry@,
        list@.len() == 0 ==> r@ == entry@,
{
    if list.unicode_len() > 0 {
        let mut out = String::from_str(list);
        out.append(", ");
        out.append(entry);
        proof {
            reveal_strlit(", ");
            assert(", "@ =~= seq![',', ' ']);
        }
        out
    } else {
        String::from_str(entry)
    }
}

/// One pass of list removal: each comma-separated item is kept —
/// trimmed — unless it contains the entry; kept items are re-joined
/// with ", ".
pub open spec fn spec_comma_list_removed(
    h: Seq<char>,
    entry: Seq<char>,
    acc: Seq<char>,
    first: bool,
) -> Seq<char>
    decreases h.len(),
    via spec_comma_list_removed_dec
{
    let c = spec_first_comma_char(h);
    let item = h.subrange(0, c);
    let keep = !spec_contains(item, entry);
    let acc2 = if keep {
        (if first {
            acc
        } else {
            acc + seq![',', ' ']
        }) + spec_trim(item)
    } else {
        acc
    };
    let first2 = if keep {
        false
    } else {
        first
    };
    if c == h.len() {
        acc2
    } else {
        spec_comma_list_removed(h.subrange(c + 1, h.len() as int), entry, acc2, first2)
    }
}

#[via_fn]
proof fn spec_comma_list_removed_dec(h: Seq<char>, entry: Seq<char>, acc: Seq<char>, first: bool) {
    crate::strtool::lemma_first_comma_char(h);
}

/// Remove the entries containing `entry` from a comma-delimited list.
pub fn comma_list_remove(list: &str, entry: &str) -> (r: String)
    ensures
        list@.len() > 0 ==> r@ == spec_comma_list_removed(list@, entry@, Seq::empty(), true),
        list@.len() == 0 ==> r@ == Seq::<char>::empty(),
{
    if list.unicode_len() > 0 {
        comma_list_remove_rec(list, entry, String::new(), true)
    } else {
        String::new()
    }
}

fn comma_list_remove_rec(s: &str, entry: &str, acc: String, first: bool) -> (r: String)
    ensures
        r@ == spec_comma_list_removed(s@, entry@, acc@, first),
    decreases s@.len(),
{
    let sn = s.unicode_len();
    let c = find_comma(s);
    let item = s.substring_char(0, c);
    let keep = !contains_sub(item, entry);
    let mut acc2 = acc;
    if keep {
        if !first {
            acc2.append(", ");
            proof {
                reveal_strlit(", ");
                assert(", "@ =~= seq![',', ' ']);
            }
        }
        let (ta, tb) = trim_bounds(item);
        let trimmed = item.substring_char(ta, tb);
        acc2.append(trimmed);
    }
    let first2 = if keep {
        false
    } else {
        first
    };
    if c == sn {
        acc2
    } else {
        let rest = s.substring_char(c + 1, sn);
        proof {
            assert(rest@ =~= s@.subrange(c + 1, sn as int));
        }
        comma_list_remove_rec(rest, entry, acc2, first2)
    }
}

/// The first comma, or the length when there is none.
fn find_comma(s: &str) -> (c: usize)
    ensures
        c as int == spec_first_comma_char(s@),
        c <= s@.len(),
{
    let sn = s.unicode_len();
    let mut i: usize = 0;
    while i < sn && s.get_char(i) != ','
        invariant
            sn == s@.len(),
            i <= sn,
            forall|j: int| 0 <= j < i ==> s@[j] != ',',
        decreases sn - i,
    {
        i += 1;
    }
    proof {
        crate::strtool::lemma_first_comma_char(s@);
        let f = spec_first_comma_char(s@);
        if f < i {
            assert(s@[f] == ',');
            assert(false);
        }
        if i < f {
            assert(s@[i as int] != ',');
            assert(i as int == sn as int || s@[i as int] == ',');
            assert(false);
        }
    }
    i
}

/// The section name with a trailing `.ifname` dropped.
pub open spec fn spec_section_of(k: Seq<char>) -> Seq<char> {
    if k.len() >= ".ifname"@.len() && spec_match_at(k, ".ifname"@, k.len() - ".ifname"@.len()) {
        k.take(k.len() - ".ifname"@.len())
    } else {
        k
    }
}

/// The mode a wired section name spells: `rita_` sections are mesh,
/// `lan` sections LAN, `backhaul` the WAN uplink; the rest is unknown.
pub open spec fn spec_wired_mode(sec: Seq<char>) -> InterfaceMode {
    if spec_contains(sec, "rita_"@) {
        InterfaceMode::Mesh
    } else if spec_contains(sec, "lan"@) {
        InterfaceMode::LAN
    } else if spec_contains(sec, "backhaul"@) {
        InterfaceMode::WAN
    } else {
        InterfaceMode::Unknown
    }
}

/// Find out a wired interface's mode from its UCI setting name.
/// Never refuses: an unrecognized section is reported as unknown.
pub fn ethernet2mode(_ifname: &str, setting_name: &str) -> (r: Result<
    InterfaceMode,
    InterfacesError,
>)
    ensures
        r == Ok::<InterfaceMode, InterfacesError>(spec_wired_mode(spec_section_of(setting_name@))),
{
    let kn = setting_name.unicode_len();
    let sn = ".ifname".unicode_len();
    let section = if sn <= kn && match_at(setting_name, ".ifname", kn - sn) {
        let cut = setting_name.substring_char(0, kn - sn);
        proof {
            assert(cut@ =~= setting_name@.take(kn as int - sn as int));
        }
        cut
    } else {
        setting_name
    };
    if contains_sub(section, "rita_") {
        Ok(InterfaceMode::Mesh)
    } else if contains_sub(section, "lan") {
        Ok(InterfaceMode::LAN)
    } else if contains_sub(section, "backhaul") {
        Ok(InterfaceMode::WAN)
    } else {
        Ok(InterfaceMode::Unknown)
    }
}

/// The first value stored under `key`, scanning the snapshot in order.
pub open spec fn spec_uci_lookup(s: Seq<(String, String)>, key: Seq<char>) -> Option<Seq<char>>
    decreases s.len(),
{
    if s.len() == 0 {
        None
    } else if s[0].0@ == key {
        Some(s[0].1@)
    } else {
        spec_uci_lookup(s.drop_first(), key)
    }
}

/// Look a key up in a UCI snapshot.
pub fn uci_lookup<'a>(uci: &'a Vec<(String, String)>, key: &str) -> (r: Option<&'a String>)
    ensures
        match r {
            Some(v) => spec_uci_lookup(uci@, key@) == Some(v@),
            None => spec_uci_lookup(uci@, key@) == None::<Seq<char>>,
        },
{
    let n = uci.len();
    let mut k: usize = 0;
    proof {
        assert(uci@.skip(0) =~= uci@);
    }
    while k < n
        invariant
            n == uci@.len(),
            k <= n,
            spec_uci_lookup(uci@, key@) == spec_uci_lookup(uci@.skip(k as int), key@),
        decreases n - k,
    {
        proof {
            assert(uci@.skip(k as int)[0] == uci@[k as int]);
            assert(uci@.skip(k as int).drop_first() =~= uci@.skip(k + 1));
        }
        if str_eq(uci[k].0.as_str(), key) {
            return Some(&uci[k].1);
        }
        k += 1;
    }
    proof {
        assert(uci@.skip(n as int) =~= Seq::<(String, String)>::empty());
    }
    None
}

/// The radio a wireless setting name belongs to, and the UCI key that
/// stores its 802.11 mode.
pub open spec fn spec_wlan_mode_key(setting_name: Seq<char>) -> Seq<char> {
    let no_prefix = if spec_match_at(setting_name, "wireless."@, 0) {
        setting_name.skip("wireless."@.len() as int)
    } else {
        setting_name
    };
    let radio = if no_prefix.len() >= ".ifname"@.len() && spec_match_at(
        no_prefix,
        ".ifname"@,
        no_prefix.len() - ".ifname"@.len(),
    ) {
        no_prefix.take(no_prefix.len() - ".ifname"@.len())
    } else {
        no_prefix
    };
    "wireless.default_"@ + radio + ".mode"@
}

/// The mode a wireless 802.11 mode string spells.
pub open spec fn spec_wlan_mode(v: Seq<char>) -> InterfaceMode {
    if v == "adhoc"@ {
        InterfaceMode::Mesh
    } else if v == "ap"@ {
        InterfaceMode::LAN
    } else if v == "sta"@ {
        InterfaceMode::WAN
    } else {
        InterfaceMode::Unknown
    }
}

/// Find out a wireless interface's mode from the radio's 802.11 mode
/// of operation in the given wireless snapshot. Refused exactly when
/// the radio's mode entry is missing from the snapshot.
pub fn wlan2mode(uci: &Vec<(String, String)>, _ifname: &str, setting_name: &str) -> (r: Result<
    InterfaceMode,
    InterfacesError,
>)
    ensures
        match r {
            Ok(m) => spec_uci_lookup(uci@, spec_wlan_mode_key(setting_name@)) matches Some(v) && m
                == spec_wlan_mode(v),
            Err(e) => e == InterfacesError::SettingNotFound && spec_uci_lookup(
                uci@,
                spec_wlan_mode_key(setting_name@),
            ) is None,
        },
{
    let no_prefix = crate::strtool::strip_prefix_str(setting_name, "wireless.");
    let radio = crate::strtool::strip_suffix_str(no_prefix.as_str(), ".ifname");
    let mut key = String::from_str("wireless.default_");
    key.append(radio.as_str());
    key.append(".mode");
    proof {
        assert(key@ == spec_wlan_mode_key(setting_name@));
    }
    match uci_lookup(uci, key.as_str()) {
        None => Err(InterfacesError::SettingNotFound),
        Some(v) => {
            if str_eq(v.as_str(), "adhoc") {
                Ok(InterfaceMode::Mesh)
            } else if str_eq(v.as_str(), "ap") {
                Ok(InterfaceMode::LAN)
            } else if str_eq(v.as_str(), "sta") {
                Ok(InterfaceMode::WAN)
            } else {
                Ok(InterfaceMode::Unknown)
            }
        },
    }
}

/// The mode of the first listed interface whose name contains the
/// target, or unknown when none does.
pub open spec fn spec_current_mode(
    s: Seq<(String, InterfaceMode)>,
    target: Seq<char>,
) -> InterfaceMode
    decreases s.len(),
{
    if s.len() == 0 {
        InterfaceMode::Unknown
    } else if spec_contains(s[0].0@, target) {
        s[0].1
    } else {
        spec_current_mode(s.drop_first(), target)
    }
}

/// The mode the listing currently assigns to the target interface.
pub fn get_current_interface_mode(
    interfaces: &Vec<(String, InterfaceMode)>,
    target_iface: &str,
) -> (r: InterfaceMode)
    ensures
        r == spec_current_mode(interfaces@, target_iface@),
{
    let n = interfaces.len();
    let mut k: usize = 0;
    proof {
        assert(interfaces@.skip(0) =~= interfaces@);
    }
    while k < n
        invariant
            n == interfaces@.len(),
            k <= n,
            spec_current_mode(interfaces@, target_iface@) == spec_current_mode(
                interfaces@.skip(k as int),
                target_iface@,
            ),
        decreases n - k,
    {
        proof {
            assert(interfaces@.skip(k as int)[0] == interfaces@[k as int]);
            assert(interfaces@.skip(k as int).drop_first() =~= interfaces@.skip(k + 1));
        }
        if contains_sub(interfaces[k].0.as_str(), target_iface) {
            return interfaces[k].1;
        }
        k += 1;
    }
    proof {
        assert(interfaces@.skip(n as int) =~= Seq::<(String, InterfaceMode)>::empty());
    }
    InterfaceMode::Unknown
}

/// One UCI edit.
#[derive(Clone, Debug, PartialEq)]
pub enum UciOp {
    /// Delete the entry under this key.
    Delete(String),
    /// Set the entry under this key to this value.
    Assign(String, String),
}

pub open spec fn op_is_del(op: UciOp, k: Seq<char>) -> bool {
    op matches UciOp::Delete(a) && a@ == k
}

pub open spec fn op_is_set(op: UciOp, k: Seq<char>, v: Seq<char>) -> bool {
    op matches UciOp::Assign(a, b) && a@ == k && b@ == v
}

/// The UCI edits that move one interface between modes, and what is
/// to happen around them.
#[derive(Clone, Debug, PartialEq)]
pub struct UciPlan {
    /// The edits, in order.
    pub ops: Vec<UciOp>,
    /// Stop discovery on this interface before editing.
    pub unlisten: Option<String>,
    /// Forget the recorded external NIC (the interface leaves WAN).
    pub clear_external_nic: bool,
    /// Record this interface as the external NIC (it becomes WAN).
    pub set_external_nic: bool,
    /// After a successful commit, enroll the interface in discovery —
    /// after the settling delay.
    pub mesh_add: bool,
    /// The wireless section was edited too and needs its own commit.
    pub commit_wireless: bool,
}

/// Appending to a comma-delimited list, as `comma_list_add` does it.
pub open spec fn spec_comma_added(l: Seq<char>, e: Seq<char>) -> Seq<char> {
    if l.len() > 0 {
        l + seq![',', ' '] + e
    } else {
        e
    }
}

/// The logical section a wired mesh interface gets: `network.rita_`
/// plus the interface name with its dots dropped.
pub open spec fn spec_filtered_ifname(ifname: Seq<char>) -> Seq<char> {
    "network.rita_"@ + spec_remove_all(ifname, "."@)
}

/// The edits `ethernet_transform_plan` hands back for a valid move.
pub open spec fn spec_eth_plan_ops(
    ops: Seq<UciOp>,
    a: InterfaceMode,
    b: InterfaceMode,
    ifname: Seq<char>,
    lan: Option<Seq<char>>,
) -> bool {
    let filtered = spec_filtered_ifname(ifname);
    &&& (a is WAN ==> op_is_del(ops[0], "network.backhaul"@))
    &&& (a is LAN ==> lan is Some && op_is_set(
        ops[0],
        "network.lan.ifname"@,
        spec_comma_list_removed(lan->Some_0, ifname, Seq::empty(), true),
    ))
    &&& (a is Mesh ==> op_is_del(ops[0], filtered))
    &&& (b is WAN ==> ops.len() == 4 && op_is_set(ops[1], "network.backhaul"@, "interface"@)
        && op_is_set(ops[2], "network.backhaul.ifname"@, ifname) && op_is_set(
        ops[3],
        "network.backhaul.proto"@,
        "dhcp"@,
    ))
    &&& (b is LAN ==> ops.len() == 2 && op_is_set(
        ops[1],
        "network.lan.ifname"@,
        match lan {
            Some(l) => spec_comma_added(l, ifname),
            None => ifname,
        },
    ))
    &&& (b is Mesh ==> ops.len() == 4 && op_is_set(ops[1], filtered, "interface"@) && op_is_set(
        ops[2],
        filtered + ".ifname"@,
        ifname,
    ) && op_is_set(ops[3], filtered + ".proto"@, "static"@))
}

/// Plan the UCI edits that move a wired interface from mode `a` to
/// mode `b`. `lan_list` is the current `network.lan.ifname` entry, or
/// nothing when that entry does not exist. Moving the same mode onto
/// itself edits nothing; an ambiguous mode cannot be moved; leaving
/// LAN needs the LAN list entry to exist.
pub fn ethernet_transform_plan(
    ifname: &str,
    a: InterfaceMode,
    b: InterfaceMode,
    lan_list: Option<&String>,
) -> (r: Result<UciPlan, InterfacesError>)
    ensures
        match r {
            Ok(plan) => {
                &&& (a == b ==> plan.ops@.len() == 0 && plan.unlisten is None
                    && !plan.clear_external_nic && !plan.set_external_nic && !plan.mesh_add)
                &&& (a != b ==> {
                    &&& !(a is Unknown) && !(b is Unknown)
                    &&& spec_eth_plan_ops(
                        plan.ops@,
                        a,
                        b,
                        ifname@,
                        match lan_list {
                            Some(l) => Some(l@),
                            None => None,
                        },
                    )
                    &&& (match plan.unlisten {
                        Some(u) => a is Mesh && u@ == ifname@,
                        None => !(a is Mesh),
                    })
                    &&& plan.clear_external_nic == (a is WAN)
                    &&& plan.set_external_nic == (b is WAN)
                    &&& plan.mesh_add == (b is Mesh)
                })
                &&& !plan.commit_wireless
            },
            Err(InterfacesError::UnchangeableInterface) => a != b && (a is Unknown
                || b is Unknown),
            Err(InterfacesError::SettingNotFound) => a is LAN && b != a && !(b is Unknown)
                && lan_list is None,
            Err(_) => false,
        },
{
    if eq_mode(a, b) {
        return Ok(
            UciPlan {
                ops: Vec::new(),
                unlisten: None,
                clear_external_nic: false,
                set_external_nic: false,
                mesh_add: false,
                commit_wireless: false,
            },
        );
    }
    if eq_mode(a, InterfaceMode::Unknown) || eq_mode(b, InterfaceMode::Unknown) {
        return Err(InterfacesError::UnchangeableInterface);
    }
    let mut filtered = String::from_str("network.rita_");
    let stripped = crate::strtool::remove_occurrences(ifname, ".");
    filtered.append(stripped.as_str());
    let mut ops: Vec<UciOp> = Vec::new();
    let mut unlisten: Option<String> = None;
    let mut clear_external_nic = false;
    match a {
        InterfaceMode::WAN => {
            clear_external_nic = true;
            ops.push(UciOp::Delete(String::from_str("network.backhaul")));
        },
        InterfaceMode::LAN => {
            match lan_list {
                Some(list) => {
                    let newlist = comma_list_remove(list.as_str(), ifname);
                    proof {
                        if list@.len() == 0 {
                            assert(spec_comma_list_removed(list@, ifname@, Seq::empty(), true)
                                =~= Seq::<char>::empty());
                        }
                    }
                    ops.push(
                        UciOp::Assign(String::from_str("network.lan.ifname"), newlist),
                    );
                },
                None => {
                    return Err(InterfacesError::SettingNotFound);
                },
            }
        },
        InterfaceMode::Mesh => {
            unlisten = Some(String::from_str(ifname));
            ops.push(UciOp::Delete(filtered.clone()));
        },
        InterfaceMode::Unknown => {
            return Err(InterfacesError::UnchangeableInterface);
        },
    }
    let mut set_external_nic = false;
    let mut mesh_add = false;
    match b {
        InterfaceMode::WAN => {
            set_external_nic = true;
            ops.push(
                UciOp::Assign(
                    String::from_str("network.backhaul"),
                    String::from_str("interface"),
                ),
            );
            ops.push(
                UciOp::Assign(
                    String::from_str("network.backhaul.ifname"),
                    String::from_str(ifname),
                ),
            );
            ops.push(
                UciOp::Assign(
                    String::from_str("network.backhaul.proto"),
                    String::from_str("dhcp"),
                ),
            );
        },
        InterfaceMode::LAN => {
            let newlist = match lan_list {
                Some(list) => comma_list_add(list.as_str(), ifname),
                None => String::from_str(ifname),
            };
            ops.push(UciOp::Assign(String::from_str("network.lan.ifname"), newlist));
        },
        InterfaceMode::Mesh => {
            mesh_add = true;
            ops.push(UciOp::Assign(filtered.clone(), String::from_str("interface")));
            let mut k1 = filtered.clone();
            k1.append(".ifname");
            ops.push(UciOp::Assign(k1, String::from_str(ifname)));
            let mut k2 = filtered.clone();
            k2.append(".proto");
            ops.push(UciOp::Assign(k2, String::from_str("static")));
        },
        InterfaceMode::Unknown => {
            return Err(InterfacesError::UnchangeableInterface);
        },
    }
    Ok(
        UciPlan {
            ops,
            unlisten,
            clear_external_nic,
            set_external_nic,
            mesh_add,
            commit_wireless: false,
        },
    )
}

fn eq_mode(a: InterfaceMode, b: InterfaceMode) -> (r: bool)
    ensures
        r == (a == b),
{
    match (a, b) {
        (InterfaceMode::Mesh, InterfaceMode::Mesh) => true,
        (InterfaceMode::LAN, InterfaceMode::LAN) => true,
        (InterfaceMode::WAN, InterfaceMode::WAN) => true,
        (InterfaceMode::Unknown, InterfaceMode::Unknown) => true,
        _ => false,
    }
}

/// The wireless radio section of an interface: the interface's last
/// character names the radio, held true by this engine's own
/// configuration.
pub open spec fn spec_wlan_section(ifname: Seq<char>) -> Seq<char> {
    "wireless.default_radio"@ + seq![ifname.last()]
}

/// The edits `wlan_transform_plan` hands back for a valid move.
pub open spec fn spec_wlan_plan_ops(
    ops: Seq<UciOp>,
    a: InterfaceMode,
    b: InterfaceMode,
    ifname: Seq<char>,
) -> bool {
    let sect = spec_wlan_section(ifname);
    let rita_if = "network.rita_"@ + ifname;
    let na: int = if a is Mesh {
        1int
    } else {
        0int
    };
    &&& (a is Mesh ==> op_is_del(ops[0], rita_if))
    &&& (b is LAN ==> ops.len() == na + 5 && op_is_set(ops[na], sect + ".network"@, "lan"@)
        && op_is_set(ops[na + 1], sect + ".mode"@, "ap"@) && op_is_set(
        ops[na + 2],
        sect + ".ssid"@,
        "AltheaHome"@,
    ) && op_is_set(ops[na + 3], sect + ".encryption"@, "psk2+tkip+aes"@) && op_is_set(
        ops[na + 4],
        sect + ".key"@,
        "ChangeMe"@,
    ))
    &&& (b is Mesh ==> ops.len() == na + 7 && op_is_set(
        ops[na],
        sect + ".network"@,
        "rita_"@ + ifname,
    ) && op_is_set(ops[na + 1], sect + ".mode"@, "adhoc"@) && op_is_set(
        ops[na + 2],
        sect + ".ssid"@,
        "AltheaMesh"@,
    ) && op_is_set(ops[na + 3], sect + ".encryption"@, "none"@) && op_is_set(
        ops[na + 4],
        rita_if,
        "interface"@,
    ) && op_is_set(ops[na + 5], rita_if + ".ifname"@, ifname) && op_is_set(
        ops[na + 6],
        rita_if + ".proto"@,
        "static"@,
    ))
}

/// Plan the UCI edits that move a wireless interface from mode `a` to
/// mode `b`. Wireless interfaces move only between LAN and mesh.
pub fn wlan_transform_plan(ifname: &str, a: InterfaceMode, b: InterfaceMode) -> (r: Result<
    UciPlan,
    InterfacesError,
>)
    ensures
        match r {
            Ok(plan) => {
                &&& (a == b ==> plan.ops@.len() == 0 && plan.unlisten is None && !plan.mesh_add)
                &&& (a != b ==> {
                    &&& ifname@.len() > 0
                    &&& (a is Mesh || a is LAN) && (b is Mesh || b is LAN)
                    &&& spec_wlan_plan_ops(plan.ops@, a, b, ifname@)
                    &&& (match plan.unlisten {
                        Some(u) => a is Mesh && u@ == ifname@,
                        None => !(a is Mesh),
                    })
                    &&& plan.mesh_add == (b is Mesh)
                    &&& plan.commit_wireless
                })
                &&& !plan.clear_external_nic && !plan.set_external_nic
            },
            Err(InterfacesError::UnchangeableInterface) => a != b && (a is Unknown
                || b is Unknown),
            Err(InterfacesError::WanUnsupported) => a != b && !(a is Unknown) && !(b is Unknown)
                && (a is WAN || b is WAN),
            Err(InterfacesError::InvalidName) => a != b && (a is Mesh || a is LAN) && (b is Mesh
                || b is LAN) && ifname@.len() == 0,
            Err(_) => false,
        },
{
    if eq_mode(a, b) {
        return Ok(
            UciPlan {
                ops: Vec::new(),
                unlisten: None,
                clear_external_nic: false,
                set_external_nic: false,
                mesh_add: false,
                commit_wireless: false,
            },
        );
    }
    if eq_mode(a, InterfaceMode::Unknown) || eq_mode(b, InterfaceMode::Unknown) {
        return Err(InterfacesError::UnchangeableInterface);
    }
    if eq_mode(a, InterfaceMode::WAN) || eq_mode(b, InterfaceMode::WAN) {
        return Err(InterfacesError::WanUnsupported);
    }
    let n = ifname.unicode_len();
    if n == 0 {
        return Err(InterfacesError::InvalidName);
    }
    let last = ifname.substring_char(n - 1, n);
    let mut sect = String::from_str("wireless.default_radio");
    sect.append(last);
    proof {
        assert(last@ =~= seq![ifname@.last()]);
    }
    let mut rita_if = String::from_str("network.rita_");
    rita_if.append(ifname);
    let mut ops: Vec<UciOp> = Vec::new();
    let mut unlisten: Option<String> = None;
    match a {
        InterfaceMode::Mesh => {
            unlisten = Some(String::from_str(ifname));
            ops.push(UciOp::Delete(rita_if.clone()));
        },
        _ => {},
    }
    let mut mesh_add = false;
    match b {
        InterfaceMode::LAN => {
            ops.push(UciOp::Assign(key_of(&sect, ".network"), String::from_str("lan")));
            ops.push(UciOp::Assign(key_of(&sect, ".mode"), String::from_str("ap")));
            ops.push(UciOp::Assign(key_of(&sect, ".ssid"), String::from_str("AltheaHome")));
            ops.push(
                UciOp::Assign(key_of(&sect, ".encryption"), String::from_str("psk2+tkip+aes")),
            );
            ops.push(UciOp::Assign(key_of(&sect, ".key"), String::from_str("ChangeMe")));
        },
        InterfaceMode::Mesh => {
            mesh_add = true;
            let mut netname = String::from_str("rita_");
            netname.append(ifname);
            ops.push(UciOp::Assign(key_of(&sect, ".network"), netname));
            ops.push(UciOp::Assign(key_of(&sect, ".mode"), String::from_str("adhoc")));
            ops.push(UciOp::Assign(key_of(&sect, ".ssid"), String::from_str("AltheaMesh")));
            ops.push(UciOp::Assign(key_of(&sect, ".encryption"), String::from_str("none")));
            ops.push(UciOp::Assign(rita_if.clone(), String::from_str("interface")));
            ops.push(UciOp::Assign(key_of(&rita_if, ".ifname"), String::from_str(ifname)));
            ops.push(UciOp::Assign(key_of(&rita_if, ".proto"), String::from_str("static")));
        },
        _ => {},
    }
    Ok(
        UciPlan {
            ops,
            unlisten,
            clear_external_nic: false,
            set_external_nic: false,
            mesh_add,
            commit_wireless: true,
        },
    )
}

/// The section key with a suffix appended.
fn key_of(base: &String, suffix: &str) -> (r: String)
    ensures
        r@ == base@ + suffix@,
{
    let mut k = base.clone();
    k.append(suffix);
    k
}

/// Which transformation path an assignment request takes.
#[derive(Clone, Copy, PartialEq, Eq, Structural, Debug)]
pub enum TransformKind {
    Wired,
    Wireless,
}

pub open spec fn spec_has_iface(s: Seq<(String, InterfaceMode)>, name: Seq<char>) -> bool {
    exists|i: int| 0 <= i < s.len() && (#[trigger] s[i]).0@ == name
}

pub open spec fn spec_any_mode(s: Seq<(String, InterfaceMode)>, m: InterfaceMode) -> bool {
    exists|i: int| 0 <= i < s.len() && (#[trigger] s[i]).1 == m
}

/// Check an assignment request against the current listing and decide
/// which transformation runs. Only one WAN interface may exist, and
/// only one wired LAN interface.
pub fn plan_interface_set(
    interfaces: &Vec<(String, InterfaceMode)>,
    iface_name: &str,
    target: InterfaceMode,
) -> (r: Result<(TransformKind, InterfaceMode), InterfacesError>)
    ensures
        match r {
            Ok(k) => {
                &&& spec_has_iface(interfaces@, iface_name@)
                &&& k.0 == (if spec_contains(iface_name@, "wlan"@) {
                    TransformKind::Wireless
                } else {
                    TransformKind::Wired
                })
                &&& k.1 == spec_current_mode(interfaces@, iface_name@)
                &&& !(target is WAN && spec_any_mode(interfaces@, InterfaceMode::WAN))
                &&& !(target is LAN && !spec_contains(iface_name@, "wlan"@) && spec_any_mode(
                    interfaces@,
                    InterfaceMode::LAN,
                ))
            },
            Err(InterfacesError::NoSuchInterface) => !spec_has_iface(interfaces@, iface_name@),
            Err(InterfacesError::WanConflict) => spec_has_iface(interfaces@, iface_name@)
                && target is WAN && spec_any_mode(interfaces@, InterfaceMode::WAN),
            Err(InterfacesError::LanConflict) => spec_has_iface(interfaces@, iface_name@)
                && target is LAN && !spec_contains(iface_name@, "wlan"@) && spec_any_mode(
                interfaces@,
                InterfaceMode::LAN,
            ) && !(target is WAN && spec_any_mode(interfaces@, InterfaceMode::WAN)),
            Err(_) => false,
        },
{
    let current = get_current_interface_mode(interfaces, iface_name);
    if !has_iface(interfaces, iface_name) {
        return Err(InterfacesError::NoSuchInterface);
    }
    let is_wlan = contains_sub(iface_name, "wlan");
    if eq_mode(target, InterfaceMode::WAN) && any_mode(interfaces, InterfaceMode::WAN) {
        return Err(InterfacesError::WanConflict);
    }
    if eq_mode(target, InterfaceMode::LAN) && !is_wlan && any_mode(
        interfaces,
        InterfaceMode::LAN,
    ) {
        return Err(InterfacesError::LanConflict);
    }
    if is_wlan {
        Ok((TransformKind::Wireless, current))
    } else {
        Ok((TransformKind::Wired, current))
    }
}

fn has_iface(interfaces: &Vec<(String, InterfaceMode)>, name: &str) -> (r: bool)
    ensures
        r == spec_has_iface(interfaces@, name@),
{
    let n = interfaces.len();
    let mut k: usize = 0;
    while k < n
        invariant
            n == interfaces@.len(),
            k <= n,
            forall|j: int| 0 <= j < k ==> (#[trigger] interfaces@[j]).0@ != name@,
        decreases n - k,
    {
        if str_eq(interfaces[k].0.as_str(), name) {
            return true;
        }
        k += 1;
    }
    false
}

fn any_mode(interfaces: &Vec<(String, InterfaceMode)>, m: InterfaceMode) -> (r: bool)
    ensures
        r == spec_any_mode(interfaces@, m),
{
    let n = interfaces.len();
    let mut k: usize = 0;
    while k < n
        invariant
            n == interfaces@.len(),
            k <= n,
            forall|j: int| 0 <= j < k ==> (#[trigger] interfaces@[j]).1 != m,
        decreases n - k,
    {
        if eq_mode(interfaces[k].1, m) {
            return true;
        }
        k += 1;
    }
    false
}

/// What to do once the planned edits ran.
#[derive(Clone, Copy, PartialEq, Eq, Structural, Debug)]
pub enum Outcome {
    /// Some edit failed: revert the sections and report the failure.
    Revert,
    /// All edits succeeded: commit.
    Commit,
    /// All edits succeeded and a mesh interface was added: commit,
    /// then enroll the interface in discovery after the settling
    /// delay.
    CommitThenListen,
}

pub open spec fn spec_any_failed(s: Seq<bool>) -> bool {
    exists|i: int| 0 <= i < s.len() && !(#[trigger] s[i])
}

/// Decide between reverting and committing from the edits' outcomes.
pub fn transform_outcome(results: &Vec<bool>, mesh_add: bool) -> (r: Outcome)
    ensures
        r == (if spec_any_failed(results@) {
            Outcome::Revert
        } else if mesh_add {
            Outcome::CommitThenListen
        } else {
            Outcome::Commit
        }),
{
    let n = results.len();
    let mut k: usize = 0;
    while k < n
        invariant
            n == results@.len(),
            k <= n,
            forall|j: int| 0 <= j < k ==> (#[trigger] results@[j]),
        decreases n - k,
    {
        if !results[k] {
            return Outcome::Revert;
        }
        k += 1;
    }
    if mesh_add {
        Outcome::CommitThenListen
    } else {
        Outcome::Commit
    }
}

/// The members of a comma-separated interface list, spaces dropped.
pub open spec fn spec_list_members(v: Seq<char>) -> Seq<Seq<char>>
    decreases v.len(),
    via spec_list_members_dec
{
    let c = spec_first_comma_char(v);
    if c == v.len() {
        seq![spec_remove_all(v, " "@)]
    } else {
        seq![spec_remove_all(v.subrange(0, c), " "@)] + spec_list_members(
            v.subrange(c + 1, v.len() as int),
        )
    }
}

#[via_fn]
proof fn spec_list_members_dec(v: Seq<char>) {
    crate::strtool::lemma_first_comma_char(v);
}

/// Classify one wired UCI entry. Nothing comes back for entries that
/// are not interface names, belong to the WAN uplink, or name the
/// loopback; otherwise the mode the section spells and the interface
/// names the value lists — split on commas with spaces dropped when
/// it is a list, the single value verbatim when it is not.
pub fn wired_uci_entry(setting_name: &str, value: &str) -> (r: Option<
    (InterfaceMode, Vec<String>),
>)
    ensures
        match r {
            Some(p) => {
                &&& spec_contains(setting_name@, "ifname"@)
                &&& !spec_contains(value@, "backhaul"@)
                &&& value@ != "lo"@
                &&& p.0 == spec_wired_mode(spec_section_of(setting_name@))
                &&& p.1@.map_values(|s: String| s@) == (if spec_contains(value@, ","@) {
                    spec_list_members(value@)
                } else {
                    seq![value@]
                })
            },
            None => !(spec_contains(setting_name@, "ifname"@) && !spec_contains(
                value@,
                "backhaul"@,
            ) && value@ != "lo"@),
        },
{
    if !contains_sub(setting_name, "ifname") || contains_sub(value, "backhaul") || str_eq(
        value,
        "lo",
    ) {
        return None;
    }
    let mode = match ethernet2mode(value, setting_name) {
        Ok(m) => m,
        Err(_) => InterfaceMode::Unknown,
    };
    let mut members: Vec<String> = Vec::new();
    if contains_sub(value, ",") {
        list_members_rec(value, &mut members);
        proof {
            assert(members@.map_values(|s: String| s@) =~= Seq::<Seq<char>>::empty()
                + spec_list_members(value@));
        }
    } else {
        members.push(String::from_str(value));
        proof {
            assert(members@.map_values(|s: String| s@) =~= seq![value@]);
        }
    }
    Some((mode, members))
}

fn list_members_rec(v: &str, out: &mut Vec<String>)
    ensures
        final(out)@.map_values(|s: String| s@) == old(out)@.map_values(|s: String| s@)
            + spec_list_members(v@),
    decreases v@.len(),
{
    let vn = v.unicode_len();
    let c = find_comma(v);
    if c == vn {
        let member = crate::strtool::remove_occurrences(v, " ");
        out.push(member);
        proof {
            assert(final(out)@.map_values(|s: String| s@) =~= old(out)@.map_values(
                |s: String| s@,
            ) + spec_list_members(v@));
        }
    } else {
        let head = v.substring_char(0, c);
        proof {
            assert(head@ =~= v@.subrange(0, c as int));
        }
        let member = crate::strtool::remove_occurrences(head, " ");
        out.push(member);
        let rest = v.substring_char(c + 1, vn);
        proof {
            assert(rest@ =~= v@.subrange(c + 1, vn as int));
        }
        let ghost mid = out@;
        list_members_rec(rest, out);
        proof {
            assert(final(out)@.map_values(|s: String| s@) =~= old(out)@.map_values(
                |s: String| s@,
            ) + spec_list_members(v@));
        }
    }
}

/// The wired rows of the interface listing: every interface a
/// non-backhaul, non-loopback `ifname` entry names, with the mode its
/// section spells.
pub open spec fn spec_wired_entries(s: Seq<(String, String)>) -> Seq<(Seq<char>, InterfaceMode)>
    decreases s.len(),
{
    if s.len() == 0 {
        Seq::empty()
    } else {
        let k = s[0].0@;
        let v = s[0].1@;
        let rest = spec_wired_entries(s.drop_first());
        if spec_contains(k, "ifname"@) && !spec_contains(v, "backhaul"@) && v != "lo"@ {
            let m = spec_wired_mode(spec_section_of(k));
            let members = if spec_contains(v, ","@) {
                spec_list_members(v)
            } else {
                seq![v]
            };
            members.map_values(|w: Seq<char>| (w, m)) + rest
        } else {
            rest
        }
    }
}

/// The wireless rows: every `ifname` entry with the mode its radio's
/// 802.11 entry spells; nothing when some radio's mode entry is
/// missing.
pub open spec fn spec_wifi_entries(
    s: Seq<(String, String)>,
    full: Seq<(String, String)>,
) -> Option<Seq<(Seq<char>, InterfaceMode)>>
    decreases s.len(),
{
    if s.len() == 0 {
        Some(Seq::empty())
    } else {
        let k = s[0].0@;
        let v = s[0].1@;
        if spec_contains(k, "ifname"@) {
            match spec_uci_lookup(full, spec_wlan_mode_key(k)) {
                None => None,
                Some(mv) => match spec_wifi_entries(s.drop_first(), full) {
                    None => None,
                    Some(rest) => Some(seq![(v, spec_wlan_mode(mv))] + rest),
                },
            }
        } else {
            spec_wifi_entries(s.drop_first(), full)
        }
    }
}

/// The view of a produced listing.
pub open spec fn spec_listing_view(out: Seq<(String, InterfaceMode)>) -> Seq<
    (Seq<char>, InterfaceMode),
> {
    out.map_values(|p: (String, InterfaceMode)| (p.0@, p.1))
}

/// Build the interface listing from the two UCI snapshots: the wired
/// rows of the network section, then — when the device has WiFi — the
/// wireless rows. Refused exactly when a wireless radio's mode entry
/// is missing.
#[verifier::loop_isolation(false)]
pub fn get_interfaces(
    network: &Vec<(String, String)>,
    wireless: Option<&Vec<(String, String)>>,
) -> (r: Result<Vec<(String, InterfaceMode)>, InterfacesError>)
    ensures
        match r {
            Ok(out) => (match wireless {
                Some(w) => spec_wifi_entries(w@, w@) matches Some(wifi) && spec_listing_view(out@)
                    == spec_wired_entries(network@) + wifi,
                None => spec_listing_view(out@) == spec_wired_entries(network@),
            }),
            Err(e) => e == InterfacesError::SettingNotFound && (wireless matches Some(w)
                && spec_wifi_entries(w@, w@) is None),
        },
{
    let mut out: Vec<(String, InterfaceMode)> = Vec::new();
    let n = network.len();
    let mut k: usize = 0;
    proof {
        assert(network@.skip(0) =~= network@);
        assert(spec_listing_view(out@) =~= Seq::<(Seq<char>, InterfaceMode)>::empty());
        assert(spec_listing_view(out@) + spec_wired_entries(network@) =~= spec_wired_entries(
            network@,
        ));
    }
    while k < n
        invariant
            n == network@.len(),
            k <= n,
            spec_wired_entries(network@) == spec_listing_view(out@) + spec_wired_entries(
                network@.skip(k as int),
            ),
        decreases n - k,
    {
        proof {
            assert(network@.skip(k as int)[0] == network@[k as int]);
            assert(network@.skip(k as int).drop_first() =~= network@.skip(k + 1));
        }
        match wired_uci_entry(network[k].0.as_str(), network[k].1.as_str()) {
            None => {},
            Some((mode, members)) => {
                let mn = members.len();
                let mut j: usize = 0;
                let ghost base = spec_listing_view(out@);
                let ghost base_len = out@.len() as int;
                let ghost mview = members@.map_values(|s2: String| s2@);
                while j < mn
                    invariant
                        mn == members@.len(),
                        j <= mn,
                        mview == members@.map_values(|s2: String| s2@),
                        out@.len() == base_len + j,
                        forall|t: int| 0 <= t < base_len ==> spec_listing_view(out@)[t] == base[t],
                        forall|t: int|
                            0 <= t < j ==> spec_listing_view(out@)[base_len + t] == (
                            mview[t],
                            mode,
                            ),
                    decreases mn - j,
                {
                    let ghost out_pre = out@;
                    out.push((members[j].clone(), mode));
                    proof {
                        assert(out@ == out_pre.push((members@[j as int], mode)));
                        assert(spec_listing_view(out@)[base_len + j] == (mview[j as int], mode));
                        assert forall|t: int| 0 <= t < out_pre.len() implies spec_listing_view(
                            out@,
                        )[t] == spec_listing_view(out_pre)[t] by {
                            assert(out@[t] == out_pre[t]);
                        }
                    }
                    j += 1;
                }
                proof {
                    assert(spec_listing_view(out@) + spec_wired_entries(network@.skip(k + 1))
                        =~= base + spec_wired_entries(network@.skip(k as int)));
                }
            },
        }
        k += 1;
    }
    proof {
        assert(network@.skip(n as int) =~= Seq::<(String, String)>::empty());
        assert(spec_listing_view(out@) + Seq::<(Seq<char>, InterfaceMode)>::empty()
            =~= spec_listing_view(out@));
    }
    let w = match wireless {
        None => {
            return Ok(out);
        },
        Some(w) => w,
    };
    let wn = w.len();
    let ghost wired_view = spec_listing_view(out@);
    let ghost wired_len = out@.len() as int;
    let ghost mut acc: Seq<(Seq<char>, InterfaceMode)> = Seq::empty();
    let mut k2: usize = 0;
    proof {
        assert(w@.skip(0) =~= w@);
    }
    while k2 < wn
        invariant
            wn == w@.len(),
            k2 <= wn,
            out@.len() == wired_len + acc.len(),
            forall|t: int| 0 <= t < wired_len ==> spec_listing_view(out@)[t] == wired_view[t],
            forall|t: int|
                0 <= t < acc.len() ==> spec_listing_view(out@)[wired_len + t] == acc[t],
            match spec_wifi_entries(w@.skip(k2 as int), w@) {
                Some(rest) => spec_wifi_entries(w@, w@) == Some(acc + rest),
                None => spec_wifi_entries(w@, w@) is None,
            },
        decreases wn - k2,
    {
        proof {
            assert(w@.skip(k2 as int)[0] == w@[k2 as int]);
            assert(w@.skip(k2 as int).drop_first() =~= w@.skip(k2 + 1));
        }
        if contains_sub(w[k2].0.as_str(), "ifname") {
            let mode = match wlan2mode(w, w[k2].1.as_str(), w[k2].0.as_str()) {
                Ok(m) => m,
                Err(e) => {
                    return Err(e);
                },
            };
            let ghost out_pre = out@;
            out.push((w[k2].1.clone(), mode));
            proof {
                let x = (w@[k2 as int].1@, mode);
                let acc_old = acc;
                acc = acc + seq![x];
                assert(out@ == out_pre.push((w@[k2 as int].1, mode)));
                assert(spec_listing_view(out@)[wired_len + acc_old.len()] == x);
                assert forall|t: int| 0 <= t < out_pre.len() implies spec_listing_view(out@)[t]
                    == spec_listing_view(out_pre)[t] by {
                    assert(out@[t] == out_pre[t]);
                }
                match spec_wifi_entries(w@.skip(k2 + 1), w@) {
                    Some(rest2) => {
                        assert(acc_old + (seq![x] + rest2) =~= acc + rest2);
                    },
                    None => {},
                }
            }
        }
        k2 += 1;
    }
    proof {
        assert(w@.skip(wn as int) =~= Seq::<(String, String)>::empty());
        match spec_wifi_entries(w@, w@) {
            Some(all) => {
                assert(acc + Seq::<(Seq<char>, InterfaceMode)>::empty() =~= acc);
                assert(spec_listing_view(out@) =~= wired_view + acc);
            },
            None => {},
        }
    }
    Ok(out)
}

} // verus!
