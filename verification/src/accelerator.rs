//! Devices: what a probe may report, which devices a target can use, and how a
//! backend hands them to the workload.

use vstd::prelude::*;
use vstd::utf8::encode_utf8;
use crate::canonical::{fingerprint, sha256_bytes};
use crate::error::{first_fault, lemma_fault_step, lemma_no_fault, outcome, Error};
use crate::json::{member_of, text_list, text_object, views, whole, Json, JsonView, Members};
use crate::map::{
    keys, lemma_filter_members, lemma_filter_same, lemma_lookup_found, lemma_lookup_push,
    lemma_ordered_keys_differ, lemma_put_all_lookup, lemma_put_all_members, lemma_put_lookup,
    lemma_put_ordered, lookup, ordered, put, put_all, StringMap,
};
use crate::model::{fault, Accelerator, Target};
use crate::path::{
    absolute, below, components, is_absolute, join_path, parts, parts_view, Component, Part,
};
use crate::text::{
    alphanumeric_char, before, chars_of, copy_strings, decimal, glue, glue3, has_char, has_string,
    is_alphanumeric, is_digit, join, joined, law_joined_texts_come_apart, lemma_before_irreflexive,
    lemma_before_total, lemma_before_transitive, lemma_decimal_reads_back, less, number,
    number_result, parse_number, pieces, same, starts, starts_with, strip_prefix, text_of, texts,
    unsigned, unsigned_body, without,
};
use crate::version::{
    admits, admitted, driver_version, driver_version_of, matches_range, parse_range, parsed_range,
};

verus! {

/// A device, as a probe reports it.
#[derive(Debug)]
pub struct Device {
    pub id: String,
    pub index: u32,
    pub architecture: String,
    pub memory_mib: u64,
    pub driver_version: String,
    pub runtime_version: String,
    pub topology: StringMap<String>,
    pub device_nodes: Vec<String>,
    pub driver_mounts: StringMap<String>,
}

/// What a probe reports of a node.
#[derive(Debug)]
pub struct Inventory {
    pub version: u32,
    pub backend: String,
    pub devices: Vec<Device>,
}

/// How devices are handed to a workload.
#[derive(Debug)]
pub struct Launch {
    pub args: Vec<String>,
    pub env: StringMap<String>,
    pub devices: Vec<Device>,
}

pub struct DeviceView {
    pub id: Seq<char>,
    pub index: u32,
    pub architecture: Seq<char>,
    pub memory_mib: u64,
    pub driver_version: Seq<char>,
    pub runtime_version: Seq<char>,
    pub topology: Seq<(Seq<char>, Seq<char>)>,
    pub device_nodes: Seq<Seq<char>>,
    pub driver_mounts: Seq<(Seq<char>, Seq<char>)>,
}

pub struct InventoryView {
    pub version: u32,
    pub backend: Seq<char>,
    pub devices: Seq<DeviceView>,
}

pub struct LaunchView {
    pub args: Seq<Seq<char>>,
    pub env: Seq<(Seq<char>, Seq<char>)>,
    pub devices: Seq<DeviceView>,
}

impl View for Device {
    type V = DeviceView;

    open spec fn view(&self) -> DeviceView {
        DeviceView {
            id: self.id@,
            index: self.index,
            architecture: self.architecture@,
            memory_mib: self.memory_mib,
            driver_version: self.driver_version@,
            runtime_version: self.runtime_version@,
            topology: self.topology@,
            device_nodes: texts(self.device_nodes@),
            driver_mounts: self.driver_mounts@,
        }
    }
}

pub open spec fn devices_view(v: Seq<Device>) -> Seq<DeviceView> {
    v.map_values(|d: Device| d@)
}

impl View for Inventory {
    type V = InventoryView;

    open spec fn view(&self) -> InventoryView {
        InventoryView {
            version: self.version,
            backend: self.backend@,
            devices: devices_view(self.devices@),
        }
    }
}

impl View for Launch {
    type V = LaunchView;

    open spec fn view(&self) -> LaunchView {
        LaunchView {
            args: texts(self.args@),
            env: self.env@,
            devices: devices_view(self.devices@),
        }
    }
}

impl Device {
    /// The same device once more.
    pub fn copy(&self) -> (r: Device)
        ensures
            r@ == self@,
    {
        Device {
            id: self.id.clone(),
            index: self.index,
            architecture: self.architecture.clone(),
            memory_mib: self.memory_mib,
            driver_version: self.driver_version.clone(),
            runtime_version: self.runtime_version.clone(),
            topology: self.topology.copy_texts(),
            device_nodes: copy_strings(&self.device_nodes),
            driver_mounts: self.driver_mounts.copy_texts(),
        }
    }
}

pub fn copy_devices(devices: &[Device]) -> (r: Vec<Device>)
    ensures
        devices_view(r@) == devices_view(devices@),
{
    let mut out: Vec<Device> = Vec::new();
    let mut i: usize = 0;
    while i < devices.len()
        invariant
            i <= devices@.len(),
            out@.len() == i,
            forall|k: int| 0 <= k < i ==> (#[trigger] out@[k])@ == devices@[k]@,
        decreases devices.len() - i,
    {
        out.push(devices[i].copy());
        i += 1;
    }
    assert(devices_view(out@) =~= devices_view(devices@));
    out
}

// ----------------------------------------------------------- inventories

pub open spec fn id_char(c: char) -> bool {
    is_alphanumeric(c) || c == '_' || c == '.' || c == ':' || c == '-'
}

/// The identity of a device: letters, digits and `_.:-`, at least one.
pub open spec fn device_id(id: Seq<char>) -> bool {
    id.len() > 0 && forall|i: int| 0 <= i < id.len() ==> id_char(#[trigger] id[i])
}

/// Another device before place `i` has the same identity or the same index.
pub open spec fn repeated(devices: Seq<DeviceView>, i: int) -> bool {
    exists|j: int|
        0 <= j < i && ((#[trigger] devices[j]).id == devices[i].id || devices[j].index
            == devices[i].index)
}

/// A device node lies in `/dev`, and its path does not go back up.
pub open spec fn node_check(node: Seq<char>) -> Result<(), Seq<Seq<char>>> {
    if starts(node, "/dev/"@) && !node.contains(',') && !node.contains(':') && !node.contains('\n')
        && !parts(node).contains(Part::Parent) {
        Ok(())
    } else {
        fault("invalid device node"@)
    }
}

/// A host driver mount goes from one absolute path to another.
pub open spec fn mount_check(entry: (Seq<char>, Seq<char>)) -> Result<(), Seq<Seq<char>>> {
    if absolute(entry.0) && absolute(entry.1) && !entry.0.contains(',') && !entry.0.contains(':')
        && !entry.1.contains(',') && !entry.1.contains(':') {
        Ok(())
    } else {
        fault("invalid host driver mount"@)
    }
}

/// The first thing that is wrong with the device at place `i`, if anything is.
pub open spec fn device_check(devices: Seq<DeviceView>, i: int) -> Result<(), Seq<Seq<char>>> {
    let d = devices[i];
    let nodes = first_fault(d.device_nodes, |n: Seq<char>| node_check(n));
    if !device_id(d.id) {
        fault("invalid device ID"@)
    } else if repeated(devices, i) {
        fault("duplicate device identity"@)
    } else if d.memory_mib == 0 || d.architecture.len() == 0 || d.runtime_version.len() == 0 {
        fault("unknown device memory, architecture or runtime"@)
    } else if driver_version_of(d.driver_version) is Err {
        Err(driver_version_of(d.driver_version)->Err_0)
    } else if nodes is Err {
        nodes
    } else {
        first_fault(d.driver_mounts, |e: (Seq<char>, Seq<char>)| mount_check(e))
    }
}

/// The places of a sequence of `n` elements.
pub open spec fn places(n: nat) -> Seq<int> {
    Seq::new(n, |i: int| i)
}

/// The first thing that is wrong with an inventory, if anything is.
pub open spec fn inventory_check(
    inventory: InventoryView,
    backend: Seq<char>,
) -> Result<(), Seq<Seq<char>>> {
    if inventory.version != 1 || inventory.backend != backend {
        fault("probe version/backend mismatch"@)
    } else {
        first_fault(
            places(inventory.devices.len()),
            |i: int| device_check(inventory.devices, i),
        )
    }
}

fn device_id_valid(id: &str) -> (r: bool)
    ensures
        r == device_id(id@),
{
    let x = chars_of(id);
    let mut i: usize = 0;
    while i < x.len()
        invariant
            x@ == id@,
            i <= x@.len(),
            forall|k: int| 0 <= k < i ==> id_char(#[trigger] id@[k]),
        decreases x.len() - i,
    {
        let c = x[i];
        if !(alphanumeric_char(c) || c == '_' || c == '.' || c == ':' || c == '-') {
            assert(!id_char(id@[i as int]));
            return false;
        }
        i += 1;
    }
    x.len() > 0
}

fn is_repeated(devices: &Vec<Device>, i: usize) -> (r: bool)
    requires
        i < devices@.len(),
    ensures
        r == repeated(devices_view(devices@), i as int),
{
    let ghost all = devices_view(devices@);
    let mut j: usize = 0;
    while j < i
        invariant
            all == devices_view(devices@),
            j <= i < devices@.len(),
            forall|k: int|
                0 <= k < j ==> (#[trigger] all[k]).id != all[i as int].id && all[k].index
                    != all[i as int].index,
        decreases i - j,
    {
        assert(all[j as int] == devices@[j as int]@);
        assert(all[i as int] == devices@[i as int]@);
        if same(devices[j].id.as_str(), devices[i].id.as_str()) || devices[j].index
            == devices[i].index {
            return true;
        }
        j += 1;
    }
    false
}

fn goes_up(path: &str) -> (r: bool)
    ensures
        r == parts(path@).contains(Part::Parent),
{
    let found = components(path);
    let mut i: usize = 0;
    while i < found.len()
        invariant
            parts_view(found@) == parts(path@),
            i <= found@.len(),
            forall|k: int| 0 <= k < i ==> parts(path@)[k] != Part::Parent,
        decreases found.len() - i,
    {
        assert(parts(path@)[i as int] == found@[i as int]@);
        match &found[i] {
            Component::Parent => {
                assert(parts(path@)[i as int] == Part::Parent);
                return true;
            },
            _ => {},
        }
        i += 1;
    }
    false
}

fn check_nodes(nodes: &Vec<String>) -> (r: Result<(), Error>)
    ensures
        outcome(r) == first_fault(texts(nodes@), |n: Seq<char>| node_check(n)),
{
    let ghost all = texts(nodes@);
    let ghost check = |n: Seq<char>| node_check(n);
    let mut i: usize = 0;
    assert(all.take(0).len() == 0);
    while i < nodes.len()
        invariant
            all == texts(nodes@),
            i <= nodes@.len(),
            check == (|n: Seq<char>| node_check(n)),
            first_fault(all.take(i as int), check) is Ok,
        decreases nodes.len() - i,
    {
        proof {
            lemma_fault_step(all, check, i as int);
            assert(all[i as int] == nodes@[i as int]@);
        }
        let node = nodes[i].as_str();
        if !(starts_with(node, "/dev/") && !has_char(node, ',') && !has_char(node, ':')
            && !has_char(node, '\n') && !goes_up(node)) {
            return Err(Error::new("invalid device node"));
        }
        i += 1;
    }
    assert(all.take(all.len() as int) =~= all);
    Ok(())
}

fn check_mounts(mounts: &StringMap<String>) -> (r: Result<(), Error>)
    ensures
        outcome(r) == first_fault(mounts@, |e: (Seq<char>, Seq<char>)| mount_check(e)),
{
    let ghost check = |e: (Seq<char>, Seq<char>)| mount_check(e);
    let mut i: usize = 0;
    assert(mounts@.take(0).len() == 0);
    while i < mounts.len()
        invariant
            i <= mounts@.len(),
            check == (|e: (Seq<char>, Seq<char>)| mount_check(e)),
            first_fault(mounts@.take(i as int), check) is Ok,
        decreases mounts@.len() - i,
    {
        proof {
            lemma_fault_step(mounts@, check, i as int);
        }
        let source = mounts.key(i).as_str();
        let destination = mounts.value(i).as_str();
        if !(is_absolute(source) && is_absolute(destination) && !has_char(source, ',')
            && !has_char(source, ':') && !has_char(destination, ',') && !has_char(
            destination,
            ':',
        )) {
            return Err(Error::new("invalid host driver mount"));
        }
        i += 1;
    }
    assert(mounts@.take(mounts@.len() as int) =~= mounts@);
    Ok(())
}

fn check_device(devices: &Vec<Device>, i: usize) -> (r: Result<(), Error>)
    requires
        i < devices@.len(),
    ensures
        outcome(r) == device_check(devices_view(devices@), i as int),
{
    let d = &devices[i];
    assert(devices_view(devices@)[i as int] == d@);
    if !device_id_valid(d.id.as_str()) {
        return Err(Error::new("invalid device ID"));
    }
    if is_repeated(devices, i) {
        return Err(Error::new("duplicate device identity"));
    }
    if d.memory_mib == 0 || d.architecture.as_str().is_empty()
        || d.runtime_version.as_str().is_empty() {
        return Err(Error::new("unknown device memory, architecture or runtime"));
    }
    match driver_version(d.driver_version.as_str()) {
        Ok(_) => {},
        Err(e) => {
            return Err(e);
        },
    }
    match check_nodes(&d.device_nodes) {
        Ok(_) => {},
        Err(e) => {
            return Err(e);
        },
    }
    check_mounts(&d.driver_mounts)
}

/// The inventory that a probe of the backend reported, if it is sound.
pub fn parse_inventory(inventory: Inventory, backend: &str) -> (r: Result<Inventory, Error>)
    ensures
        match r {
            Ok(i) => i == inventory && inventory_check(inventory@, backend@) is Ok,
            Err(e) => inventory_check(inventory@, backend@) == Err::<(), Seq<Seq<char>>>(e@),
        },
{
    if !(inventory.version == 1 && same(inventory.backend.as_str(), backend)) {
        return Err(Error::new("probe version/backend mismatch"));
    }
    let ghost all = places(inventory@.devices.len());
    let ghost check = |i: int| device_check(inventory@.devices, i);
    let mut i: usize = 0;
    assert(all.take(0).len() == 0);
    while i < inventory.devices.len()
        invariant
            inventory.version == 1,
            inventory.backend@ == backend@,
            all == places(inventory@.devices.len()),
            inventory@.devices == devices_view(inventory.devices@),
            i <= inventory.devices@.len(),
            check == (|i: int| device_check(inventory@.devices, i)),
            first_fault(all.take(i as int), check) is Ok,
        decreases inventory.devices.len() - i,
    {
        proof {
            lemma_fault_step(all, check, i as int);
        }
        match check_device(&inventory.devices, i) {
            Ok(_) => {},
            Err(e) => {
                return Err(e);
            },
        }
        i += 1;
    }
    assert(all.take(all.len() as int) =~= all);
    Ok(inventory)
}

// -------------------------------------------------------------- matching

/// Every entry asked for stands in the topology of the device.
pub open spec fn topology_fits(
    asked: Seq<(Seq<char>, Seq<char>)>,
    found: Seq<(Seq<char>, Seq<char>)>,
) -> bool {
    forall|i: int|
        0 <= i < asked.len() ==> lookup(found, (#[trigger] asked[i]).0) == Some(asked[i].1)
}

/// The range admits the driver of the device.
pub open spec fn driver_fits(range: Seq<char>, raw: Seq<char>) -> bool {
    driver_version_of(raw) is Ok && admits(range, driver_version_of(raw)->Ok_0)
}

/// The device meets the requirement.
pub open spec fn fits(requirement: Accelerator, d: DeviceView) -> bool {
    &&& d.memory_mib >= requirement.min_memory_mib
    &&& texts(requirement.architectures@).contains(d.architecture)
    &&& text_of(requirement.runtime_version) == Some(d.runtime_version)
    &&& driver_fits(requirement.driver_range->0@, d.driver_version)
    &&& topology_fits(requirement.topology@, d.topology)
}

/// The devices with `d` behind those whose identity does not come after its own.
pub open spec fn placed(s: Seq<DeviceView>, d: DeviceView) -> Seq<DeviceView>
    decreases s.len(),
{
    if s.len() > 0 && before(d.id, s.last().id) {
        placed(s.drop_last(), d).push(s.last())
    } else {
        s.push(d)
    }
}

/// The devices in the order of their identities; of equal ones the first stays first.
pub open spec fn by_id(s: Seq<DeviceView>) -> Seq<DeviceView>
    decreases s.len(),
{
    if s.len() == 0 {
        Seq::empty()
    } else {
        placed(by_id(s.drop_last()), s.last())
    }
}

/// The devices that meet the requirement, in the order of their identities.
pub open spec fn fitting(requirement: Accelerator, devices: Seq<DeviceView>) -> Seq<DeviceView> {
    by_id(devices.filter(|d: DeviceView| fits(requirement, d)))
}

pub open spec fn shortage(id: Seq<char>, count: nat, found: nat) -> Seq<char> {
    id + " needs "@ + decimal(count) + " compatible devices; found "@ + decimal(found)
        + " (architecture, memory, driver, runtime and topology checked)"@
}

/// The devices of an inventory that a target can use, or why they do not do.
pub open spec fn matching_of(
    requirement: Accelerator,
    inventory: InventoryView,
) -> Result<Seq<DeviceView>, Seq<Seq<char>>> {
    let found = fitting(requirement, inventory.devices);
    if requirement.id@ != inventory.backend {
        Err(seq!["accelerator inventory mismatch"@])
    } else if requirement.id@ == "cpu"@ {
        Ok(Seq::empty())
    } else if requirement.driver_range is None {
        Err(seq!["missing driver range"@])
    } else if parsed_range(requirement.driver_range->0@) is Err {
        Err(seq![parsed_range(requirement.driver_range->0@)->Err_0])
    } else if found.len() < requirement.count {
        Err(seq![shortage(requirement.id@, requirement.count as nat, found.len())])
    } else {
        Ok(found)
    }
}

fn check_topology(asked: &StringMap<String>, found: &StringMap<String>) -> (r: bool)
    ensures
        r == topology_fits(asked@, found@),
{
    let mut i: usize = 0;
    while i < asked.len()
        invariant
            i <= asked@.len(),
            forall|k: int|
                0 <= k < i ==> lookup(found@, (#[trigger] asked@[k]).0) == Some(asked@[k].1),
        decreases asked@.len() - i,
    {
        let ok = match found.get(asked.key(i).as_str()) {
            Some(v) => same(v.as_str(), asked.value(i).as_str()),
            None => false,
        };
        if !ok {
            assert(lookup(found@, asked@[i as int].0) != Some(asked@[i as int].1));
            return false;
        }
        i += 1;
    }
    true
}

fn does_fit(requirement: &Accelerator, range: &str, d: &Device) -> (r: bool)
    requires
        requirement.driver_range is Some,
        range@ == requirement.driver_range->0@,
        parsed_range(range@) is Ok,
    ensures
        r == fits(*requirement, d@),
{
    if d.memory_mib < requirement.min_memory_mib {
        return false;
    }
    if !has_string(&requirement.architectures, d.architecture.as_str()) {
        return false;
    }
    let runtime = match &requirement.runtime_version {
        Some(v) => same(v.as_str(), d.runtime_version.as_str()),
        None => false,
    };
    if !runtime {
        return false;
    }
    let driver = match driver_version(d.driver_version.as_str()) {
        Ok(v) => matches_range(range, &v),
        Err(_) => false,
    };
    if !driver {
        return false;
    }
    check_topology(&requirement.topology, &d.topology)
}

/// Puts a device behind those whose identity does not come after its own.
fn place(sorted: &mut Vec<Device>, d: Device)
    ensures
        devices_view(final(sorted)@) == placed(devices_view(old(sorted)@), d@),
{
    let ghost s = devices_view(sorted@);
    let mut i: usize = sorted.len();
    while i > 0 && less(d.id.as_str(), sorted[i - 1].id.as_str())
        invariant
            i <= sorted@.len(),
            s == devices_view(sorted@),
            forall|k: int| i <= k < s.len() ==> before(d@.id, (#[trigger] s[k]).id),
        decreases i,
    {
        assert(s[i - 1] == sorted@[i - 1]@);
        i -= 1;
    }
    proof {
        if i > 0 {
            assert(s[i - 1] == sorted@[i - 1]@);
        }
        lemma_placed_at(s, d@, i as int);
    }
    let ghost v = d@;
    sorted.insert(i, d);
    assert(devices_view(sorted@) =~= s.insert(i as int, v));
}

proof fn lemma_placed_at(s: Seq<DeviceView>, d: DeviceView, i: int)
    requires
        0 <= i <= s.len(),
        forall|k: int| i <= k < s.len() ==> before(d.id, (#[trigger] s[k]).id),
        i > 0 ==> !before(d.id, s[i - 1].id),
    ensures
        placed(s, d) == s.insert(i, d),
    decreases s.len(),
{
    if i < s.len() {
        assert(before(d.id, s[s.len() - 1].id));
        lemma_placed_at(s.drop_last(), d, i);
        assert(s.drop_last().insert(i, d).push(s.last()) =~= s.insert(i, d));
    } else {
        assert(s.push(d) =~= s.insert(i, d));
    }
}

/// The devices of an inventory that meet the requirement, in the order of their
/// identities, if they are enough.
pub fn matching(requirement: &Accelerator, inventory: &Inventory) -> (r: Result<Vec<Device>, Error>)
    ensures
        match r {
            Ok(v) => matching_of(*requirement, inventory@) == Ok::<
                Seq<DeviceView>,
                Seq<Seq<char>>,
            >(devices_view(v@)),
            Err(e) => matching_of(*requirement, inventory@) == Err::<
                Seq<DeviceView>,
                Seq<Seq<char>>,
            >(e@),
        },
{
    if !same(requirement.id.as_str(), inventory.backend.as_str()) {
        return Err(Error::new("accelerator inventory mismatch"));
    }
    if same(requirement.id.as_str(), "cpu") {
        let none: Vec<Device> = Vec::new();
        assert(devices_view(none@) =~= Seq::empty());
        return Ok(none);
    }
    let range = match &requirement.driver_range {
        Some(range) => range,
        None => {
            return Err(Error::new("missing driver range"));
        },
    };
    match parse_range(range.as_str()) {
        Ok(_) => {},
        Err(cause) => {
            return Err(Error::of(cause));
        },
    }
    let ghost all = inventory@.devices;
    let ghost pred = |d: DeviceView| fits(*requirement, d);
    let mut found: Vec<Device> = Vec::new();
    let mut i: usize = 0;
    proof {
        reveal(Seq::filter);
        assert(all.take(0).filter(pred) =~= Seq::empty());
        assert(devices_view(found@) =~= Seq::empty());
    }
    while i < inventory.devices.len()
        invariant
            requirement.driver_range is Some,
            range@ == requirement.driver_range->0@,
            parsed_range(range@) is Ok,
            all == devices_view(inventory.devices@),
            pred == (|d: DeviceView| fits(*requirement, d)),
            i <= inventory.devices@.len(),
            devices_view(found@) == by_id(all.take(i as int).filter(pred)),
        decreases inventory.devices.len() - i,
    {
        proof {
            reveal(Seq::filter);
            assert(all.take(i + 1).drop_last() =~= all.take(i as int));
            assert(all.take(i + 1).last() == inventory.devices@[i as int]@);
        }
        let d = &inventory.devices[i];
        if does_fit(requirement, range.as_str(), d) {
            proof {
                let before_d = all.take(i as int).filter(pred);
                assert(all.take(i + 1).filter(pred) =~= before_d.push(d@));
                assert(before_d.push(d@).drop_last() =~= before_d);
            }
            place(&mut found, d.copy());
        }
        i += 1;
    }
    assert(all.take(all.len() as int) =~= all);
    if (found.len() as u64) < requirement.count as u64 {
        let mut message = glue3(
            requirement.id.as_str(),
            " needs ",
            number(requirement.count as u64).as_str(),
        );
        message.append(" compatible devices; found ");
        message.append(number(found.len() as u64).as_str());
        message.append(" (architecture, memory, driver, runtime and topology checked)");
        return Err(Error::of(message));
    }
    Ok(found)
}

// -------------------------------------------------------------- backends

/// The backends that know how to hand devices to a workload.
#[derive(Debug, Clone, Copy, PartialEq, Eq, Structural)]
pub enum Adapter {
    Cpu,
    Cuda,
    Rocm,
    Tpu,
    Metal,
    Cann,
    Oneapi,
}

/// The name of a backend.
pub open spec fn backend_id(a: Adapter) -> Seq<char> {
    match a {
        Adapter::Cpu => "cpu"@,
        Adapter::Cuda => "cuda"@,
        Adapter::Rocm => "rocm"@,
        Adapter::Tpu => "tpu"@,
        Adapter::Metal => "metal"@,
        Adapter::Cann => "cann"@,
        Adapter::Oneapi => "oneapi"@,
    }
}

/// The backend of a name.
pub open spec fn adapter_of(id: Seq<char>) -> Option<Adapter> {
    if id == "cpu"@ {
        Some(Adapter::Cpu)
    } else if id == "cuda"@ {
        Some(Adapter::Cuda)
    } else if id == "rocm"@ {
        Some(Adapter::Rocm)
    } else if id == "tpu"@ {
        Some(Adapter::Tpu)
    } else if id == "metal"@ {
        Some(Adapter::Metal)
    } else if id == "cann"@ {
        Some(Adapter::Cann)
    } else if id == "oneapi"@ {
        Some(Adapter::Oneapi)
    } else {
        None
    }
}

/// The backend of a name.
pub fn adapter(id: &str) -> (r: Result<Adapter, Error>)
    ensures
        match r {
            Ok(a) => adapter_of(id@) == Some(a) && backend_id(a) == id@,
            Err(e) => adapter_of(id@) is None && e@ == seq!["unknown accelerator "@ + id@],
        },
{
    if same(id, "cpu") {
        Ok(Adapter::Cpu)
    } else if same(id, "cuda") {
        Ok(Adapter::Cuda)
    } else if same(id, "rocm") {
        Ok(Adapter::Rocm)
    } else if same(id, "tpu") {
        Ok(Adapter::Tpu)
    } else if same(id, "metal") {
        Ok(Adapter::Metal)
    } else if same(id, "cann") {
        Ok(Adapter::Cann)
    } else if same(id, "oneapi") {
        Ok(Adapter::Oneapi)
    } else {
        Err(Error::of(glue("unknown accelerator ", id)))
    }
}

/// The identities of devices.
pub open spec fn ids(devices: Seq<DeviceView>) -> Seq<Seq<char>> {
    devices.map_values(|d: DeviceView| d.id)
}

/// The indexes of devices, with commas between them.
pub open spec fn index_list(devices: Seq<DeviceView>) -> Seq<char> {
    joined(devices.map_values(|d: DeviceView| decimal(d.index as nat)), ","@)
}

/// A text for each element.
pub open spec fn prefixed(prefix: Seq<char>, s: Seq<Seq<char>>) -> Seq<Seq<char>> {
    s.map_values(|t: Seq<char>| prefix + t)
}

/// All device nodes of the devices, one device after the other.
pub open spec fn all_nodes(devices: Seq<DeviceView>) -> Seq<Seq<char>>
    decreases devices.len(),
{
    if devices.len() == 0 {
        Seq::empty()
    } else {
        all_nodes(devices.drop_last()) + devices.last().device_nodes
    }
}

/// Texts as the keys of a map: in order, each once.
pub open spec fn as_set(s: Seq<Seq<char>>) -> Seq<(Seq<char>, ())> {
    put_all(Seq::empty(), s.map_values(|t: Seq<char>| (t, ())))
}

/// The device nodes of the devices in order, each once.
pub open spec fn node_set(devices: Seq<DeviceView>) -> Seq<Seq<char>> {
    keys(as_set(all_nodes(devices)))
}

pub open spec fn render_node(node: Seq<char>) -> bool {
    starts(node, "/dev/dri/renderD"@)
}

pub open spec fn has_render_node(d: DeviceView) -> bool {
    exists|i: int| 0 <= i < d.device_nodes.len() && render_node(#[trigger] d.device_nodes[i])
}

/// The arguments for the render nodes of the devices and the one node besides.
pub open spec fn render_args(
    devices: Seq<DeviceView>,
    required: Seq<char>,
) -> Result<Seq<Seq<char>>, Seq<Seq<char>>> {
    let nodes = node_set(devices);
    if exists|i: int| 0 <= i < devices.len() && !has_render_node(#[trigger] devices[i]) {
        Err(seq!["selected devices lack mapped render nodes"@])
    } else if exists|i: int|
        0 <= i < nodes.len() && !render_node(#[trigger] nodes[i]) && nodes[i] != required {
        Err(seq!["unexpected device node for backend"@])
    } else {
        Ok(prefixed("--device="@, nodes))
    }
}

pub open spec fn launch_of(
    args: Seq<Seq<char>>,
    env: Seq<(Seq<char>, Seq<char>)>,
    devices: Seq<DeviceView>,
) -> LaunchView {
    LaunchView { args, env, devices }
}

pub open spec fn no_env() -> Seq<(Seq<char>, Seq<char>)> {
    Seq::empty()
}

pub open spec fn no_args() -> Seq<Seq<char>> {
    Seq::empty()
}

pub open spec fn no_launch<T>(message: Seq<char>) -> Result<T, Seq<Seq<char>>> {
    Err(seq![message])
}

/// A CUDA device has a stable identity of the driver's own.
pub open spec fn cuda_id(id: Seq<char>) -> bool {
    starts(id, "GPU-"@) || starts(id, "MIG-"@)
}

pub open spec fn cuda_launch(devices: Seq<DeviceView>) -> Result<LaunchView, Seq<Seq<char>>> {
    if exists|i: int| 0 <= i < devices.len() && !cuda_id((#[trigger] devices[i]).id) {
        no_launch("CUDA requires a stable NVML UUID"@)
    } else {
        Ok(
            launch_of(
                prefixed("--device=nvidia.com/gpu="@, ids(devices)),
                put(no_env(), "CUDA_VISIBLE_DEVICES"@, joined(ids(devices), ","@)),
                devices,
            ),
        )
    }
}

pub open spec fn rocm_launch(devices: Seq<DeviceView>) -> Result<LaunchView, Seq<Seq<char>>> {
    if exists|i: int|
        0 <= i < devices.len() && !(#[trigger] devices[i]).device_nodes.contains("/dev/kfd"@) {
        no_launch("ROCm requires KFD"@)
    } else {
        match render_args(devices, "/dev/kfd"@) {
            Err(e) => Err(e),
            Ok(args) => Ok(
                launch_of(
                    args,
                    put(no_env(), "ROCR_VISIBLE_DEVICES"@, index_list(devices)),
                    devices,
                ),
            ),
        }
    }
}

pub open spec fn tpu_launch(
    devices: Seq<DeviceView>,
    present: nat,
) -> Result<LaunchView, Seq<Seq<char>>> {
    if devices.len() != present {
        no_launch("native TPU adapter requires allocation of the complete local topology"@)
    } else {
        Ok(
            launch_of(
                no_args(),
                put(put(no_env(), "JAX_PLATFORMS"@, "tpu"@), "PJRT_DEVICE"@, "TPU"@),
                devices,
            ),
        )
    }
}

pub open spec fn metal_launch(
    devices: Seq<DeviceView>,
    present: nat,
) -> Result<LaunchView, Seq<Seq<char>>> {
    if devices.len() != 1 || present != 1 {
        no_launch("Metal adapter requires one unified-memory device"@)
    } else {
        Ok(
            launch_of(
                no_args(),
                put(no_env(), "PYTORCH_ENABLE_MPS_FALLBACK"@, "0"@),
                devices,
            ),
        )
    }
}

/// The physical number in the identity of an Ascend device.
pub open spec fn ascend_number(id: Seq<char>) -> Result<nat, Seq<Seq<char>>> {
    if !starts(id, "ascend-"@) {
        Err(seq!["Ascend requires a physical device ID"@])
    } else {
        match number_result(without(id, "ascend-"@), u32::MAX as nat) {
            Ok(n) => Ok(n),
            Err(e) => Err(seq![e]),
        }
    }
}

pub open spec fn davinci(n: nat) -> Seq<char> {
    "/dev/davinci"@ + decimal(n)
}

pub open spec fn ascend_driver() -> Seq<char> {
    "/usr/local/Ascend/driver"@
}

/// A node that the Ascend device with this number may list.
pub open spec fn ascend_node(node: Seq<char>, n: nat) -> bool {
    node == davinci(n) || node == "/dev/davinci_manager"@ || node == "/dev/devmm_svm"@ || node
        == "/dev/hisi_hdc"@
}

/// The first thing that keeps an Ascend device from being handed out, if anything does.
pub open spec fn cann_check(d: DeviceView) -> Result<(), Seq<Seq<char>>> {
    match ascend_number(d.id) {
        Err(e) => Err(e),
        Ok(n) => if !d.device_nodes.contains(davinci(n)) {
            fault("Ascend device mapping missing"@)
        } else if lookup(d.driver_mounts, ascend_driver()) is None {
            fault("Ascend host driver integration missing"@)
        } else if exists|i: int|
            0 <= i < d.device_nodes.len() && !ascend_node(#[trigger] d.device_nodes[i], n) {
            fault("unexpected Ascend device node"@)
        } else if exists|i: int|
            0 <= i < d.driver_mounts.len() && !((#[trigger] d.driver_mounts[i]).0
                == ascend_driver() && d.driver_mounts[i].1 == d.driver_mounts[i].0) {
            fault("unexpected Ascend driver mount"@)
        } else {
            Ok(())
        },
    }
}

/// All driver mounts of the devices, one device after the other.
pub open spec fn all_mounts(devices: Seq<DeviceView>) -> Seq<(Seq<char>, Seq<char>)>
    decreases devices.len(),
{
    if devices.len() == 0 {
        Seq::empty()
    } else {
        all_mounts(devices.drop_last()) + devices.last().driver_mounts
    }
}

pub open spec fn mount_arg(source: Seq<char>, destination: Seq<char>) -> Seq<char> {
    "--mount=type=bind,src="@ + source + ",dst="@ + destination + ",readonly"@
}

pub open spec fn mount_args(mounts: Seq<(Seq<char>, Seq<char>)>) -> Seq<Seq<char>> {
    mounts.map_values(|e: (Seq<char>, Seq<char>)| mount_arg(e.0, e.1))
}

pub open spec fn cann_launch(devices: Seq<DeviceView>) -> Result<LaunchView, Seq<Seq<char>>> {
    match first_fault(devices, |d: DeviceView| cann_check(d)) {
        Err(e) => Err(e),
        Ok(_) => Ok(
            launch_of(
                prefixed("--device="@, node_set(devices)) + mount_args(
                    put_all(no_env(), all_mounts(devices)),
                ),
                put(
                    no_env(),
                    "ASCEND_RT_VISIBLE_DEVICES"@,
                    joined(
                        devices.map_values(|d: DeviceView| decimal(ascend_number(d.id)->Ok_0)),
                        ","@,
                    ),
                ),
                devices,
            ),
        ),
    }
}

pub open spec fn oneapi_launch(devices: Seq<DeviceView>) -> Result<LaunchView, Seq<Seq<char>>> {
    match render_args(devices, ""@) {
        Err(e) => Err(e),
        Ok(args) => Ok(
            launch_of(
                args,
                put(
                    put(no_env(), "ONEAPI_DEVICE_SELECTOR"@, "level_zero:"@ + index_list(devices)),
                    "ZE_FLAT_DEVICE_HIERARCHY"@,
                    "COMPOSITE"@,
                ),
                devices,
            ),
        ),
    }
}

/// How a backend hands out devices of an inventory, or why it does not.
pub open spec fn configuration(
    a: Adapter,
    devices: Seq<DeviceView>,
    inventory: InventoryView,
) -> Result<LaunchView, Seq<Seq<char>>> {
    match a {
        Adapter::Cpu => Ok(launch_of(no_args(), no_env(), Seq::empty())),
        Adapter::Cuda => cuda_launch(devices),
        Adapter::Rocm => rocm_launch(devices),
        Adapter::Tpu => tpu_launch(devices, inventory.devices.len()),
        Adapter::Metal => metal_launch(devices, inventory.devices.len()),
        Adapter::Cann => cann_launch(devices),
        Adapter::Oneapi => oneapi_launch(devices),
    }
}

fn id_strings(devices: &[Device]) -> (r: Vec<String>)
    ensures
        texts(r@) == ids(devices_view(devices@)),
{
    let mut out: Vec<String> = Vec::new();
    let mut i: usize = 0;
    while i < devices.len()
        invariant
            i <= devices@.len(),
            out@.len() == i,
            forall|k: int| 0 <= k < i ==> (#[trigger] out@[k])@ == devices@[k].id@,
        decreases devices.len() - i,
    {
        out.push(devices[i].id.clone());
        i += 1;
    }
    assert(texts(out@) =~= ids(devices_view(devices@)));
    out
}

/// The indexes of devices, with commas between them.
pub fn indexes(devices: &[Device]) -> (r: String)
    ensures
        r@ == index_list(devices_view(devices@)),
{
    let mut out: Vec<String> = Vec::new();
    let mut i: usize = 0;
    while i < devices.len()
        invariant
            i <= devices@.len(),
            out@.len() == i,
            forall|k: int|
                0 <= k < i ==> (#[trigger] out@[k])@ == decimal(devices@[k].index as nat),
        decreases devices.len() - i,
    {
        out.push(number(devices[i].index as u64));
        i += 1;
    }
    assert(texts(out@) =~= devices_view(devices@).map_values(
        |d: DeviceView| decimal(d.index as nat),
    ));
    join(&out, ",")
}

/// The launch of devices that nothing else has to be said of.
pub fn launch(devices: &[Device]) -> (r: Launch)
    ensures
        r@ == launch_of(no_args(), no_env(), devices_view(devices@)),
{
    let args: Vec<String> = Vec::new();
    assert(texts(args@) =~= no_args());
    Launch { args, env: StringMap::new(), devices: copy_devices(devices) }
}

impl Launch {
    /// The launch of no device.
    pub fn empty() -> (r: Launch)
        ensures
            r@ == launch_of(no_args(), no_env(), Seq::empty()),
    {
        let args: Vec<String> = Vec::new();
        let devices: Vec<Device> = Vec::new();
        assert(texts(args@) =~= no_args());
        assert(devices_view(devices@) =~= Seq::empty());
        Launch { args, env: StringMap::new(), devices }
    }

    /// The same launch once more.
    pub fn copy(&self) -> (r: Launch)
        ensures
            r@ == self@,
    {
        Launch {
            args: copy_strings(&self.args),
            env: self.env.copy_texts(),
            devices: copy_devices(self.devices.as_slice()),
        }
    }
}

/// Puts the device nodes of a device into a set.
fn collect_nodes(set: &mut StringMap<()>, nodes: &Vec<String>, Ghost(done): Ghost<Seq<Seq<char>>>)
    requires
        old(set)@ == as_set(done),
    ensures
        final(set)@ == as_set(done + texts(nodes@)),
{
    let ghost all = texts(nodes@);
    let mut i: usize = 0;
    assert(done + all.take(0) =~= done);
    while i < nodes.len()
        invariant
            all == texts(nodes@),
            i <= nodes@.len(),
            set@ == as_set(done + all.take(i as int)),
        decreases nodes.len() - i,
    {
        proof {
            let f = |t: Seq<char>| (t, ());
            let longer = (done + all.take(i + 1)).map_values(f);
            assert(longer.drop_last() =~= (done + all.take(i as int)).map_values(f));
            assert(longer.last() == (nodes@[i as int]@, ()));
        }
        set.insert(nodes[i].clone(), ());
        i += 1;
    }
    assert(all.take(all.len() as int) =~= all);
}

/// The device nodes of the devices in order, each once.
fn nodes_of(devices: &[Device]) -> (r: Vec<String>)
    ensures
        texts(r@) == node_set(devices_view(devices@)),
{
    let ghost all = devices_view(devices@);
    let mut set: StringMap<()> = StringMap::new();
    let mut i: usize = 0;
    proof {
        assert(all.take(0).len() == 0);
        assert(all_nodes(all.take(0)) =~= Seq::empty());
        assert(all_nodes(all.take(0)).map_values(|t: Seq<char>| (t, ())) =~= Seq::empty());
    }
    while i < devices.len()
        invariant
            all == devices_view(devices@),
            i <= devices@.len(),
            set@ == as_set(all_nodes(all.take(i as int))),
        decreases devices.len() - i,
    {
        proof {
            assert(all.take(i + 1).drop_last() =~= all.take(i as int));
            assert(all.take(i + 1).last() == devices@[i as int]@);
        }
        collect_nodes(&mut set, &devices[i].device_nodes, Ghost(all_nodes(all.take(i as int))));
        i += 1;
    }
    assert(all.take(all.len() as int) =~= all);
    let mut out: Vec<String> = Vec::new();
    let mut k: usize = 0;
    while k < set.len()
        invariant
            k <= set@.len(),
            out@.len() == k,
            forall|n: int| 0 <= n < k ==> (#[trigger] out@[n])@ == set@[n].0,
        decreases set@.len() - k,
    {
        out.push(set.key(k).clone());
        k += 1;
    }
    assert(texts(out@) =~= keys(set@));
    out
}

fn prefix_all(prefix: &str, v: &Vec<String>) -> (r: Vec<String>)
    ensures
        texts(r@) == prefixed(prefix@, texts(v@)),
{
    let mut out: Vec<String> = Vec::new();
    let mut i: usize = 0;
    while i < v.len()
        invariant
            i <= v@.len(),
            out@.len() == i,
            forall|k: int| 0 <= k < i ==> (#[trigger] out@[k])@ == prefix@ + v@[k]@,
        decreases v.len() - i,
    {
        out.push(glue(prefix, v[i].as_str()));
        i += 1;
    }
    assert(texts(out@) =~= prefixed(prefix@, texts(v@)));
    out
}

fn lists_render_node(d: &Device) -> (r: bool)
    ensures
        r == has_render_node(d@),
{
    let ghost nodes = d@.device_nodes;
    let mut i: usize = 0;
    while i < d.device_nodes.len()
        invariant
            nodes == texts(d.device_nodes@),
            nodes == d@.device_nodes,
            i <= d.device_nodes@.len(),
            forall|k: int| 0 <= k < i ==> !render_node(#[trigger] nodes[k]),
        decreases d.device_nodes.len() - i,
    {
        assert(nodes[i as int] == d.device_nodes@[i as int]@);
        if starts_with(d.device_nodes[i].as_str(), "/dev/dri/renderD") {
            return true;
        }
        i += 1;
    }
    false
}

/// The arguments for the render nodes of the devices and the one node besides.
pub fn render_nodes(devices: &[Device], required: &str) -> (r: Result<Vec<String>, Error>)
    ensures
        match r {
            Ok(args) => render_args(devices_view(devices@), required@) == Ok::<
                Seq<Seq<char>>,
                Seq<Seq<char>>,
            >(texts(args@)),
            Err(e) => render_args(devices_view(devices@), required@) == Err::<
                Seq<Seq<char>>,
                Seq<Seq<char>>,
            >(e@),
        },
{
    let ghost all = devices_view(devices@);
    let nodes = nodes_of(devices);
    let mut i: usize = 0;
    while i < devices.len()
        invariant
            all == devices_view(devices@),
            i <= devices@.len(),
            forall|k: int| 0 <= k < i ==> has_render_node(#[trigger] all[k]),
        decreases devices.len() - i,
    {
        assert(all[i as int] == devices@[i as int]@);
        if !lists_render_node(&devices[i]) {
            return Err(Error::new("selected devices lack mapped render nodes"));
        }
        i += 1;
    }
    let ghost set = node_set(all);
    let mut k: usize = 0;
    while k < nodes.len()
        invariant
            all == devices_view(devices@),
            set == node_set(all),
            set == texts(nodes@),
            k <= nodes@.len(),
            forall|n: int| 0 <= n < all.len() ==> has_render_node(#[trigger] all[n]),
            forall|n: int|
                0 <= n < k ==> render_node(#[trigger] set[n]) || set[n] == required@,
        decreases nodes.len() - k,
    {
        assert(set[k as int] == nodes@[k as int]@);
        if !(starts_with(nodes[k].as_str(), "/dev/dri/renderD") || same(
            nodes[k].as_str(),
            required,
        )) {
            return Err(Error::new("unexpected device node for backend"));
        }
        k += 1;
    }
    Ok(prefix_all("--device=", &nodes))
}

fn configure_cuda(devices: &[Device]) -> (r: Result<Launch, Error>)
    ensures
        outcome(r) == cuda_launch(devices_view(devices@)),
{
    let ghost all = devices_view(devices@);
    let mut i: usize = 0;
    while i < devices.len()
        invariant
            all == devices_view(devices@),
            i <= devices@.len(),
            forall|k: int| 0 <= k < i ==> cuda_id((#[trigger] all[k]).id),
        decreases devices.len() - i,
    {
        assert(all[i as int] == devices@[i as int]@);
        let id = devices[i].id.as_str();
        if !(starts_with(id, "GPU-") || starts_with(id, "MIG-")) {
            return Err(Error::new("CUDA requires a stable NVML UUID"));
        }
        i += 1;
    }
    let names = id_strings(devices);
    let mut result = launch(devices);
    result.args = prefix_all("--device=nvidia.com/gpu=", &names);
    result.env.set("CUDA_VISIBLE_DEVICES", join(&names, ",").as_str());
    Ok(result)
}

fn configure_rocm(devices: &[Device]) -> (r: Result<Launch, Error>)
    ensures
        outcome(r) == rocm_launch(devices_view(devices@)),
{
    let ghost all = devices_view(devices@);
    let mut i: usize = 0;
    while i < devices.len()
        invariant
            all == devices_view(devices@),
            i <= devices@.len(),
            forall|k: int|
                0 <= k < i ==> (#[trigger] all[k]).device_nodes.contains("/dev/kfd"@),
        decreases devices.len() - i,
    {
        assert(all[i as int] == devices@[i as int]@);
        if !has_string(&devices[i].device_nodes, "/dev/kfd") {
            return Err(Error::new("ROCm requires KFD"));
        }
        i += 1;
    }
    match render_nodes(devices, "/dev/kfd") {
        Err(e) => Err(e),
        Ok(args) => {
            let mut result = launch(devices);
            result.args = args;
            result.env.set("ROCR_VISIBLE_DEVICES", indexes(devices).as_str());
            Ok(result)
        },
    }
}

fn configure_oneapi(devices: &[Device]) -> (r: Result<Launch, Error>)
    ensures
        outcome(r) == oneapi_launch(devices_view(devices@)),
{
    match render_nodes(devices, "") {
        Err(e) => Err(e),
        Ok(args) => {
            let mut result = launch(devices);
            result.args = args;
            result.env.set(
                "ONEAPI_DEVICE_SELECTOR",
                glue("level_zero:", indexes(devices).as_str()).as_str(),
            );
            result.env.set("ZE_FLAT_DEVICE_HIERARCHY", "COMPOSITE");
            Ok(result)
        },
    }
}

/// The physical number in the identity of an Ascend device.
fn physical_number(id: &str) -> (r: Result<u64, Error>)
    ensures
        match r {
            Ok(n) => ascend_number(id@) == Ok::<nat, Seq<Seq<char>>>(n as nat),
            Err(e) => ascend_number(id@) == Err::<nat, Seq<Seq<char>>>(e@),
        },
{
    match strip_prefix(id, "ascend-") {
        None => Err(Error::new("Ascend requires a physical device ID")),
        Some(rest) => match parse_number(rest.as_str(), u32::MAX as u64) {
            Ok(n) => Ok(n),
            Err(e) => Err(Error::of(e)),
        },
    }
}

fn check_cann(d: &Device) -> (r: Result<(), Error>)
    ensures
        outcome(r) == cann_check(d@),
{
    let n = match physical_number(d.id.as_str()) {
        Ok(n) => n,
        Err(e) => {
            return Err(e);
        },
    };
    let node = glue("/dev/davinci", number(n).as_str());
    if !has_string(&d.device_nodes, node.as_str()) {
        return Err(Error::new("Ascend device mapping missing"));
    }
    if !d.driver_mounts.contains_key("/usr/local/Ascend/driver") {
        return Err(Error::new("Ascend host driver integration missing"));
    }
    let ghost nodes = d@.device_nodes;
    let mut i: usize = 0;
    while i < d.device_nodes.len()
        invariant
            nodes == texts(d.device_nodes@),
            node@ == davinci(n as nat),
            i <= d.device_nodes@.len(),
            nodes == d@.device_nodes,
            ascend_number(d@.id) == Ok::<nat, Seq<Seq<char>>>(n as nat),
            nodes.contains(davinci(n as nat)),
            lookup(d@.driver_mounts, ascend_driver()) is Some,
            forall|k: int| 0 <= k < i ==> ascend_node(#[trigger] nodes[k], n as nat),
        decreases d.device_nodes.len() - i,
    {
        assert(nodes[i as int] == d.device_nodes@[i as int]@);
        let found = d.device_nodes[i].as_str();
        if !(same(found, node.as_str()) || same(found, "/dev/davinci_manager") || same(
            found,
            "/dev/devmm_svm",
        ) || same(found, "/dev/hisi_hdc")) {
            return Err(Error::new("unexpected Ascend device node"));
        }
        i += 1;
    }
    let ghost mounts = d@.driver_mounts;
    let mut k: usize = 0;
    while k < d.driver_mounts.len()
        invariant
            mounts == d.driver_mounts@,
            mounts == d@.driver_mounts,
            nodes == d@.device_nodes,
            k <= mounts.len(),
            ascend_number(d@.id) == Ok::<nat, Seq<Seq<char>>>(n as nat),
            nodes.contains(davinci(n as nat)),
            lookup(d@.driver_mounts, ascend_driver()) is Some,
            forall|j: int| 0 <= j < nodes.len() ==> ascend_node(#[trigger] nodes[j], n as nat),
            forall|j: int|
                0 <= j < k ==> (#[trigger] mounts[j]).0 == ascend_driver() && mounts[j].1
                    == mounts[j].0,
        decreases mounts.len() - k,
    {
        let source = d.driver_mounts.key(k).as_str();
        let destination = d.driver_mounts.value(k).as_str();
        if !(same(source, "/usr/local/Ascend/driver") && same(destination, source)) {
            return Err(Error::new("unexpected Ascend driver mount"));
        }
        k += 1;
    }
    Ok(())
}

fn configure_cann(devices: &[Device]) -> (r: Result<Launch, Error>)
    ensures
        outcome(r) == cann_launch(devices_view(devices@)),
{
    let ghost all = devices_view(devices@);
    let ghost check = |d: DeviceView| cann_check(d);
    let ghost digits = all.map_values(|d: DeviceView| decimal(ascend_number(d.id)->Ok_0));
    let mut physical: Vec<String> = Vec::new();
    let mut mounts: StringMap<String> = StringMap::new();
    let mut i: usize = 0;
    proof {
        assert(all.take(0).len() == 0);
        assert(texts(physical@) =~= digits.take(0));
        assert(all_mounts(all.take(0)) =~= Seq::empty());
    }
    while i < devices.len()
        invariant
            all == devices_view(devices@),
            check == (|d: DeviceView| cann_check(d)),
            digits == all.map_values(|d: DeviceView| decimal(ascend_number(d.id)->Ok_0)),
            i <= devices@.len(),
            first_fault(all.take(i as int), check) is Ok,
            texts(physical@) == digits.take(i as int),
            mounts@ == put_all(no_env(), all_mounts(all.take(i as int))),
        decreases devices.len() - i,
    {
        let d = &devices[i];
        proof {
            lemma_fault_step(all, check, i as int);
            assert(all[i as int] == d@);
            assert(all.take(i + 1).drop_last() =~= all.take(i as int));
            assert(all.take(i + 1).last() == d@);
        }
        match check_cann(d) {
            Ok(_) => {},
            Err(e) => {
                return Err(e);
            },
        }
        match physical_number(d.id.as_str()) {
            Ok(n) => {
                let ghost done = texts(physical@);
                physical.push(number(n));
                assert(texts(physical@) =~= done.push(decimal(n as nat)));
                assert(digits.take(i + 1) =~= digits.take(i as int).push(digits[i as int]));
            },
            Err(e) => {
                return Err(e);
            },
        }
        proof {
            lemma_put_all_append(no_env(), all_mounts(all.take(i as int)), d.driver_mounts@);
        }
        mounts.extend_texts(&d.driver_mounts);
        i += 1;
    }
    assert(all.take(all.len() as int) =~= all);
    assert(digits.take(digits.len() as int) =~= digits);
    let nodes = nodes_of(devices);
    let mut args = prefix_all("--device=", &nodes);
    let ghost device_args = texts(args@);
    let mut k: usize = 0;
    assert(device_args + mount_args(mounts@.take(0)) =~= device_args);
    while k < mounts.len()
        invariant
            k <= mounts@.len(),
            texts(args@) == device_args + mount_args(mounts@.take(k as int)),
        decreases mounts@.len() - k,
    {
        let ghost done = texts(args@);
        let mut arg = glue3("--mount=type=bind,src=", mounts.key(k).as_str(), ",dst=");
        arg.append(mounts.value(k).as_str());
        arg.append(",readonly");
        let ghost text = arg@;
        args.push(arg);
        proof {
            assert(texts(args@) =~= done.push(text));
            assert(mount_args(mounts@.take(k + 1)) =~= mount_args(mounts@.take(k as int)).push(
                text,
            ));
        }
        k += 1;
    }
    assert(mounts@.take(mounts@.len() as int) =~= mounts@);
    let mut result = launch(devices);
    result.args = args;
    result.env.set("ASCEND_RT_VISIBLE_DEVICES", join(&physical, ",").as_str());
    Ok(result)
}

/// Putting one sequence of entries and then another puts both.
pub proof fn lemma_put_all_append<W>(
    s: Seq<(Seq<char>, W)>,
    t: Seq<(Seq<char>, W)>,
    u: Seq<(Seq<char>, W)>,
)
    ensures
        put_all(put_all(s, t), u) == put_all(s, t + u),
    decreases u.len(),
{
    if u.len() == 0 {
        assert(t + u =~= t);
    } else {
        lemma_put_all_append(s, t, u.drop_last());
        assert((t + u).drop_last() =~= t + u.drop_last());
        assert((t + u).last() == u.last());
    }
}

impl Adapter {
    /// The name of the backend.
    pub fn id(&self) -> (r: &'static str)
        ensures
            r@ == backend_id(*self),
    {
        match self {
            Adapter::Cpu => "cpu",
            Adapter::Cuda => "cuda",
            Adapter::Rocm => "rocm",
            Adapter::Tpu => "tpu",
            Adapter::Metal => "metal",
            Adapter::Cann => "cann",
            Adapter::Oneapi => "oneapi",
        }
    }

    /// How the backend hands out devices of an inventory.
    pub fn configure(&self, devices: &[Device], inventory: &Inventory) -> (r: Result<Launch, Error>)
        ensures
            outcome(r) == configuration(*self, devices_view(devices@), inventory@),
    {
        match self {
            Adapter::Cpu => Ok(Launch::empty()),
            Adapter::Cuda => configure_cuda(devices),
            Adapter::Rocm => configure_rocm(devices),
            Adapter::Tpu => {
                if devices.len() != inventory.devices.len() {
                    return Err(
                        Error::new(
                            "native TPU adapter requires allocation of the complete local topology",
                        ),
                    );
                }
                let mut result = launch(devices);
                result.env.set("JAX_PLATFORMS", "tpu");
                result.env.set("PJRT_DEVICE", "TPU");
                Ok(result)
            },
            Adapter::Metal => {
                if devices.len() != 1 || inventory.devices.len() != 1 {
                    return Err(Error::new("Metal adapter requires one unified-memory device"));
                }
                let mut result = launch(devices);
                result.env.set("PYTORCH_ENABLE_MPS_FALLBACK", "0");
                Ok(result)
            },
            Adapter::Cann => configure_cann(devices),
            Adapter::Oneapi => configure_oneapi(devices),
        }
    }
}

// ------------------------------------------------------------ allocation

/// An allocation under way: the candidates, and for each one tried so far
/// whether its lock was acquired.
pub struct PlanView {
    pub adapter: Adapter,
    pub candidates: Seq<DeviceView>,
    pub taken: Seq<bool>,
    pub count: nat,
}

/// The candidates whose lock was acquired.
pub open spec fn acquired(candidates: Seq<DeviceView>, taken: Seq<bool>) -> Seq<DeviceView>
    decreases taken.len(),
{
    if taken.len() == 0 {
        Seq::empty()
    } else if taken.last() {
        acquired(candidates, taken.drop_last()).push(candidates[taken.len() - 1])
    } else {
        acquired(candidates, taken.drop_last())
    }
}

/// No further candidate is tried: the last lock completed the number asked for,
/// or none is left.
pub open spec fn settled(p: PlanView) -> bool {
    ||| p.taken.len() == p.candidates.len()
    ||| p.taken.len() > 0 && p.taken.last() && acquired(p.candidates, p.taken).len() == p.count
}

/// The plan as it was after `n` candidates.
pub open spec fn plan_at(p: PlanView, n: int) -> PlanView {
    PlanView { taken: p.taken.take(n), ..p }
}

/// Each candidate was tried only while the allocation was not settled.
pub open spec fn plan_valid(p: PlanView) -> bool {
    &&& p.taken.len() <= p.candidates.len()
    &&& forall|n: int| 0 <= n < p.taken.len() ==> !settled(#[trigger] plan_at(p, n))
}

/// The name of the lock of a device.
pub open spec fn lock_name_of(backend: Seq<char>, id: Seq<char>) -> Seq<char> {
    fingerprint(encode_utf8(backend + ":"@ + id))
}

/// The plan that an allocation starts with.
pub open spec fn plan_of(
    requirement: Accelerator,
    inventory: InventoryView,
) -> Result<PlanView, Seq<Seq<char>>> {
    match adapter_of(requirement.id@) {
        None => Err(seq!["unknown accelerator "@ + requirement.id@]),
        Some(adapter) => match matching_of(requirement, inventory) {
            Err(e) => Err(e),
            Ok(candidates) => Ok(
                PlanView {
                    adapter,
                    candidates,
                    taken: Seq::empty(),
                    count: requirement.count as nat,
                },
            ),
        },
    }
}

/// What an allocation comes to.
pub open spec fn allocation_of(
    p: PlanView,
    inventory: InventoryView,
) -> Result<LaunchView, Seq<Seq<char>>> {
    let devices = acquired(p.candidates, p.taken);
    if p.adapter != Adapter::Cpu && devices.len() != p.count {
        Err(seq!["compatible devices are already allocated"@])
    } else {
        configuration(p.adapter, devices, inventory)
    }
}

/// An allocation under way. The locks themselves are held elsewhere.
pub struct AllocationPlan {
    adapter: Adapter,
    candidates: Vec<Device>,
    next: usize,
    chosen: Vec<Device>,
    count: u32,
    complete: bool,
    taken: Ghost<Seq<bool>>,
}

impl View for AllocationPlan {
    type V = PlanView;

    closed spec fn view(&self) -> PlanView {
        PlanView {
            adapter: self.adapter,
            candidates: devices_view(self.candidates@),
            taken: self.taken@,
            count: self.count as nat,
        }
    }
}

impl AllocationPlan {
    #[verifier::type_invariant]
    spec fn consistent(&self) -> bool {
        &&& plan_valid(self@)
        &&& self.next == self.taken@.len()
        &&& devices_view(self.chosen@) == acquired(self@.candidates, self@.taken)
        &&& self.complete == (self.taken@.len() > 0 && self.taken@.last() && self.chosen@.len()
            == self.count)
    }

    /// The plan to allocate what a target asks for from an inventory.
    fn new(requirement: &Accelerator, inventory: &Inventory) -> (r: Result<
        AllocationPlan,
        Error,
    >)
        ensures
            match r {
                Ok(p) => plan_of(*requirement, inventory@) == Ok::<PlanView, Seq<Seq<char>>>(p@),
                Err(e) => plan_of(*requirement, inventory@) == Err::<PlanView, Seq<Seq<char>>>(e@),
            },
    {
        let adapter = match adapter(requirement.id.as_str()) {
            Ok(a) => a,
            Err(e) => {
                return Err(e);
            },
        };
        match matching(requirement, inventory) {
            Err(e) => Err(e),
            Ok(candidates) => {
                let chosen: Vec<Device> = Vec::new();
                assert(devices_view(chosen@) =~= Seq::empty());
                Ok(
                    AllocationPlan {
                        adapter,
                        candidates,
                        next: 0,
                        chosen,
                        count: requirement.count,
                        complete: false,
                        taken: Ghost(Seq::empty()),
                    },
                )
            },
        }
    }

    /// The name of the lock to try next, unless the allocation is settled.
    pub fn next_lock(&self) -> (r: Option<String>)
        ensures
            plan_valid(self@),
            match r {
                Some(name) => !settled(self@) && name@ == lock_name_of(
                    backend_id(self@.adapter),
                    self@.candidates[self@.taken.len() as int].id,
                ),
                None => settled(self@),
            },
    {
        proof {
            use_type_invariant(self);
        }
        if self.complete || self.next == self.candidates.len() {
            return None;
        }
        let d = &self.candidates[self.next];
        let text = glue3(self.adapter.id(), ":", d.id.as_str());
        let bytes = text.as_str().as_bytes_vec();
        Some(sha256_bytes(bytes.as_slice()))
    }

    /// Notes whether the lock of the next candidate was acquired.
    pub fn record(&mut self, got: bool)
        requires
            !settled(old(self)@),
        ensures
            final(self)@ == (PlanView { taken: old(self)@.taken.push(got), ..old(self)@ }),
    {
        proof {
            use_type_invariant(&*self);
        }
        let ghost before_call = self@;
        let ghost taken = self.taken@.push(got);
        let none: Vec<Device> = Vec::new();
        let nobody: Vec<Device> = Vec::new();
        proof {
            assert(devices_view(none@) =~= Seq::empty());
            assert(devices_view(nobody@) =~= Seq::empty());
        }
        let mut plan = AllocationPlan {
            adapter: Adapter::Cpu,
            candidates: none,
            next: 0,
            chosen: nobody,
            count: 0,
            complete: false,
            taken: Ghost(Seq::empty()),
        };
        std::mem::swap(&mut plan, self);
        proof {
            use_type_invariant(&plan);
        }
        let AllocationPlan { adapter, candidates, next, chosen, count, complete: _, taken: _ } =
            plan;
        let mut chosen = chosen;
        let ghost after = PlanView { taken, ..before_call };
        proof {
            assert(taken.drop_last() =~= before_call.taken);
            assert forall|n: int| 0 <= n < taken.len() implies !settled(
                #[trigger] plan_at(after, n),
            ) by {
                if n < before_call.taken.len() {
                    assert(plan_at(after, n).taken =~= plan_at(before_call, n).taken);
                    assert(!settled(plan_at(before_call, n)));
                } else {
                    assert(plan_at(after, n).taken =~= before_call.taken);
                    assert(plan_at(after, n) == before_call);
                }
            }
        }
        if got {
            let ghost done = devices_view(chosen@);
            let d = candidates[next].copy();
            let ghost v = d@;
            chosen.push(d);
            assert(devices_view(chosen@) =~= done.push(v));
        }
        assert(next < candidates.len());
        let complete = got && chosen.len() == count as usize;
        *self = AllocationPlan {
            adapter,
            candidates,
            next: next + 1,
            chosen,
            count,
            complete,
            taken: Ghost(taken),
        };
    }

    /// How the devices that were acquired are handed out.
    pub fn finish(&self, inventory: &Inventory) -> (r: Result<Launch, Error>)
        ensures
            outcome(r) == allocation_of(self@, inventory@),
    {
        proof {
            use_type_invariant(self);
        }
        if self.adapter != Adapter::Cpu && self.chosen.len() != self.count as usize {
            return Err(Error::new("compatible devices are already allocated"));
        }
        self.adapter.configure(self.chosen.as_slice(), inventory)
    }
}

/// The record that takes a node out of service, in the directory of the device locks.
pub open spec fn quarantine_record(lock_root: Seq<char>) -> Seq<char> {
    below(lock_root, "quarantine.json"@)
}

/// How an allocation starts: not at all on a node that was taken out of service.
pub open spec fn allocation_start(
    requirement: Accelerator,
    inventory: InventoryView,
    lock_root: Seq<char>,
    quarantined: bool,
) -> Result<PlanView, Seq<Seq<char>>> {
    match plan_of(requirement, inventory) {
        Err(e) => Err(e),
        Ok(p) => if quarantined {
            Err(
                seq![
                    "node is quarantined after a container cleanup failure; inspect "@
                        + quarantine_record(lock_root),
                ],
            )
        } else {
            Ok(p)
        },
    }
}

/// Where the record that takes a node out of service stands.
pub fn quarantine_path(lock_root: &str) -> (r: String)
    ensures
        r@ == quarantine_record(lock_root@),
{
    join_path(lock_root, "quarantine.json")
}

/// Starts to allocate what a target asks for. `quarantined` tells whether the node was taken
/// out of service.
pub fn allocate(
    target: &Target,
    inventory: &Inventory,
    lock_root: &str,
    quarantined: bool,
) -> (r: Result<AllocationPlan, Error>)
    ensures
        outcome(r) == allocation_start(
            target.summary.accelerator,
            inventory@,
            lock_root@,
            quarantined,
        ),
{
    match AllocationPlan::new(&target.summary.accelerator, inventory) {
        Err(e) => Err(e),
        Ok(plan) => if quarantined {
            let place = quarantine_path(lock_root);
            Err(
                Error::of(
                    glue(
                        "node is quarantined after a container cleanup failure; inspect ",
                        place.as_str(),
                    ),
                ),
            )
        } else {
            Ok(plan)
        },
    }
}

// ------------------------------------------------------------ the probe

/// How the inventory of a node is found.
pub enum Probe {
    /// Nothing has to be asked.
    Known(Inventory),
    /// The program to run.
    Run(String),
}

/// How the inventory of a node is found for a target.
pub open spec fn probe_is(
    a: Adapter,
    target: Target,
    r: Result<Probe, Error>,
) -> bool {
    match r {
        Ok(Probe::Known(i)) => a == Adapter::Cpu && i@ == (InventoryView {
            version: 1,
            backend: "cpu"@,
            devices: Seq::empty(),
        }),
        Ok(Probe::Run(program)) => a != Adapter::Cpu && text_of(target.probe) == Some(program@),
        Err(e) => a != Adapter::Cpu && target.probe is None && e@ == seq![
            "missing locked accelerator probe"@,
        ],
    }
}

impl Adapter {
    /// How the inventory of a node is found for a target.
    pub fn probe(&self, target: &Target) -> (r: Result<Probe, Error>)
        ensures
            probe_is(*self, *target, r),
    {
        if *self == Adapter::Cpu {
            let devices: Vec<Device> = Vec::new();
            assert(devices_view(devices@) =~= Seq::empty());
            return Ok(
                Probe::Known(Inventory { version: 1, backend: "cpu".to_owned(), devices }),
            );
        }
        match &target.probe {
            Some(program) => Ok(Probe::Run(program.clone())),
            None => Err(Error::new("missing locked accelerator probe")),
        }
    }
}

/// The directory of the device locks: the one that was chosen, else one of the user's own.
pub open spec fn lock_root_of(chosen: Option<Seq<char>>, temporary: Seq<char>, uid: nat) -> Seq<
    char,
> {
    match chosen {
        Some(path) => path,
        None => below(temporary, "nix-compute-devices-"@ + decimal(uid)),
    }
}

/// The directory of the device locks, from what the environment chose, the
/// directory for temporary files and the user's number.
pub fn lock_root(chosen: Option<String>, temporary: &str, uid: u32) -> (r: String)
    ensures
        r@ == lock_root_of(text_of(chosen), temporary@, uid as nat),
{
    match chosen {
        Some(path) => path,
        None => join_path(
            temporary,
            glue("nix-compute-devices-", number(uid as u64).as_str()).as_str(),
        ),
    }
}

/// What is written where a node is taken out of service.
pub fn quarantine(reason: &str) -> (r: Json)
    ensures
        r@ == JsonView::Object(seq![("reason"@, JsonView::Text(reason@))]),
{
    let r = Members::new().with("reason", Json::text(reason)).object();
    assert(r@->Object_0 =~= seq![("reason"@, JsonView::Text(reason@))]);
    r
}

// ------------------------------------------------------------- documents

pub open spec fn device_json(d: DeviceView) -> JsonView {
    JsonView::Object(
        seq![
            ("id"@, JsonView::Text(d.id)),
            ("index"@, whole(d.index as nat)),
            ("architecture"@, JsonView::Text(d.architecture)),
            ("memory_mib"@, whole(d.memory_mib as nat)),
            ("driver_version"@, JsonView::Text(d.driver_version)),
            ("runtime_version"@, JsonView::Text(d.runtime_version)),
            ("topology"@, text_object(d.topology)),
            ("device_nodes"@, text_list(d.device_nodes)),
            ("driver_mounts"@, text_object(d.driver_mounts)),
        ],
    )
}

pub open spec fn devices_json(devices: Seq<DeviceView>) -> JsonView {
    JsonView::Array(devices.map_values(|d: DeviceView| device_json(d)))
}

pub open spec fn launch_json(l: LaunchView) -> JsonView {
    JsonView::Object(
        seq![
            ("args"@, text_list(l.args)),
            ("env"@, text_object(l.env)),
            ("devices"@, devices_json(l.devices)),
        ],
    )
}

pub open spec fn inventory_json(i: InventoryView) -> JsonView {
    JsonView::Object(
        seq![
            ("version"@, whole(i.version as nat)),
            ("backend"@, JsonView::Text(i.backend)),
            ("devices"@, devices_json(i.devices)),
        ],
    )
}

impl Device {
    pub fn to_json(&self) -> (r: Json)
        ensures
            r@ == device_json(self@),
    {
        let r = Members::new().with("id", Json::text(self.id.as_str())).with(
            "index",
            Json::unsigned(self.index as u64),
        ).with("architecture", Json::text(self.architecture.as_str())).with(
            "memory_mib",
            Json::unsigned(self.memory_mib),
        ).with("driver_version", Json::text(self.driver_version.as_str())).with(
            "runtime_version",
            Json::text(self.runtime_version.as_str()),
        ).with("topology", Json::text_map(&self.topology)).with(
            "device_nodes",
            Json::texts(&self.device_nodes),
        ).with("driver_mounts", Json::text_map(&self.driver_mounts)).object();
        assert(r@->Object_0 =~= device_json(self@)->Object_0);
        r
    }
}

fn devices_to_json(devices: &Vec<Device>) -> (r: Json)
    ensures
        r@ == devices_json(devices_view(devices@)),
{
    let mut out: Vec<Json> = Vec::new();
    let mut i: usize = 0;
    while i < devices.len()
        invariant
            i <= devices@.len(),
            out@.len() == i,
            forall|k: int| 0 <= k < i ==> (#[trigger] out@[k])@ == device_json(devices@[k]@),
        decreases devices.len() - i,
    {
        out.push(devices[i].to_json());
        i += 1;
    }
    let ghost items = views(out@);
    assert(items =~= devices_view(devices@).map_values(|d: DeviceView| device_json(d)));
    Json::list(out)
}

impl Launch {
    pub fn to_json(&self) -> (r: Json)
        ensures
            r@ == launch_json(self@),
    {
        let r = Members::new().with("args", Json::texts(&self.args)).with(
            "env",
            Json::text_map(&self.env),
        ).with("devices", devices_to_json(&self.devices)).object();
        assert(r@->Object_0 =~= launch_json(self@)->Object_0);
        r
    }
}

impl Inventory {
    pub fn to_json(&self) -> (r: Json)
        ensures
            r@ == inventory_json(self@),
    {
        let r = Members::new().with("version", Json::unsigned(self.version as u64)).with(
            "backend",
            Json::text(self.backend.as_str()),
        ).with("devices", devices_to_json(&self.devices)).object();
        assert(r@->Object_0 =~= inventory_json(self@)->Object_0);
        r
    }
}

// ------------------------------------------------------------------ laws

/// Sorting by identity neither loses nor adds a device.
proof fn lemma_placed_multiset(s: Seq<DeviceView>, d: DeviceView)
    ensures
        placed(s, d).to_multiset() == s.to_multiset().insert(d),
    decreases s.len(),
{
    broadcast use vstd::seq_lib::group_to_multiset_ensures;

    if s.len() > 0 && before(d.id, s.last().id) {
        lemma_placed_multiset(s.drop_last(), d);
        assert(s =~= s.drop_last().push(s.last()));
        assert(placed(s, d).to_multiset() =~= s.to_multiset().insert(d));
    }
}

pub open spec fn sorted_by_id(s: Seq<DeviceView>) -> bool {
    forall|i: int, j: int|
        0 <= i < j < s.len() ==> !before((#[trigger] s[j]).id, (#[trigger] s[i]).id)
}

proof fn lemma_placed_sorted(s: Seq<DeviceView>, d: DeviceView)
    requires
        sorted_by_id(s),
    ensures
        sorted_by_id(placed(s, d)),
        forall|x: DeviceView| #[trigger] placed(s, d).contains(x) ==> x == d || s.contains(x),
    decreases s.len(),
{
    let r = placed(s, d);
    if s.len() > 0 && before(d.id, s.last().id) {
        let t = s.drop_last();
        lemma_placed_sorted(t, d);
        let u = placed(t, d);
        assert forall|i: int, j: int| 0 <= i < j < r.len() implies !before(
            (#[trigger] r[j]).id,
            (#[trigger] r[i]).id,
        ) by {
            if j < u.len() {
                assert(r[i] == u[i] && r[j] == u[j]);
            } else {
                assert(r[j] == s.last());
                assert(u.contains(u[i]));
                if u[i] == d {
                    if before(s.last().id, d.id) {
                        lemma_before_transitive(d.id, s.last().id, d.id);
                        lemma_before_irreflexive(d.id);
                    }
                } else {
                    let k = choose|k: int| 0 <= k < t.len() && t[k] == u[i];
                    assert(s[k] == u[i]);
                    assert(!before(s[s.len() - 1].id, s[k].id));
                }
            }
        }
        assert forall|x: DeviceView| #[trigger] r.contains(x) implies x == d || s.contains(x) by {
            let i = choose|i: int| 0 <= i < r.len() && r[i] == x;
            if i < u.len() {
                assert(u[i] == x);
                assert(u.contains(x));
                if x != d {
                    let k = choose|k: int| 0 <= k < t.len() && t[k] == x;
                    assert(s[k] == x);
                }
            } else {
                assert(s[s.len() - 1] == x);
            }
        }
    } else {
        assert forall|i: int, j: int| 0 <= i < j < r.len() implies !before(
            (#[trigger] r[j]).id,
            (#[trigger] r[i]).id,
        ) by {
            if j == s.len() {
                if i < s.len() - 1 {
                    assert(!before(s[s.len() - 1].id, s[i].id));
                    if before(d.id, s[i].id) {
                        if s[i].id != s.last().id {
                            lemma_before_total(s[i].id, s.last().id);
                            lemma_before_transitive(d.id, s[i].id, s.last().id);
                        }
                    }
                }
            } else {
                assert(r[i] == s[i] && r[j] == s[j]);
            }
        }
        assert forall|x: DeviceView| #[trigger] r.contains(x) implies x == d || s.contains(x) by {
            let i = choose|i: int| 0 <= i < r.len() && r[i] == x;
            if i < s.len() {
                assert(s[i] == x);
            }
        }
    }
}

/// The devices in the order of their identities are the same devices, in order.
pub proof fn law_by_id_sorts(s: Seq<DeviceView>)
    ensures
        by_id(s).to_multiset() == s.to_multiset(),
        by_id(s).len() == s.len(),
        sorted_by_id(by_id(s)),
    decreases s.len(),
{
    broadcast use vstd::seq_lib::group_to_multiset_ensures;

    if s.len() > 0 {
        law_by_id_sorts(s.drop_last());
        lemma_placed_multiset(by_id(s.drop_last()), s.last());
        lemma_placed_sorted(by_id(s.drop_last()), s.last());
        assert(s =~= s.drop_last().push(s.last()));
        assert(by_id(s).to_multiset() =~= s.to_multiset());
    }
    assert(by_id(s).len() == by_id(s).to_multiset().len());
}

/// A target gets only devices of the inventory that meet every one of its
/// requirements, in the order of their identities, and never fewer than it asks for.
pub proof fn law_matching_devices_fit(requirement: Accelerator, inventory: InventoryView)
    requires
        matching_of(requirement, inventory) is Ok,
        requirement.id@ != "cpu"@,
    ensures
        ({
            let found = matching_of(requirement, inventory)->Ok_0;
            &&& found.len() >= requirement.count
            &&& sorted_by_id(found)
            &&& forall|d: DeviceView| #[trigger]
                found.contains(d) <==> inventory.devices.contains(d) && fits(requirement, d)
        }),
{
    broadcast use vstd::seq_lib::group_to_multiset_ensures;

    let pred = |d: DeviceView| fits(requirement, d);
    let kept = inventory.devices.filter(pred);
    let found = by_id(kept);
    law_by_id_sorts(kept);
    lemma_filter_members(inventory.devices, pred);
    assert forall|d: DeviceView| #[trigger]
        found.contains(d) <==> inventory.devices.contains(d) && fits(requirement, d) by {
        assert(found.contains(d) <==> found.to_multiset().count(d) > 0);
        assert(kept.contains(d) <==> kept.to_multiset().count(d) > 0);
    }
}

pub open spec fn distinct_ids(s: Seq<DeviceView>) -> bool {
    forall|i: int, j: int| 0 <= i < j < s.len() ==> (#[trigger] s[i]).id != (#[trigger] s[j]).id
}

proof fn lemma_filter_distinct(s: Seq<DeviceView>, pred: spec_fn(DeviceView) -> bool)
    requires
        distinct_ids(s),
    ensures
        distinct_ids(s.filter(pred)),
    decreases s.len(),
{
    reveal(Seq::filter);
    if s.len() > 0 {
        let t = s.drop_last();
        lemma_filter_distinct(t, pred);
        lemma_filter_members(t, pred);
        let kept = s.filter(pred);
        assert forall|i: int, j: int| 0 <= i < j < kept.len() implies (#[trigger] kept[i]).id != (
        #[trigger] kept[j]).id by {
            let front = t.filter(pred);
            assert(front.contains(front[i]));
            let k = choose|k: int| 0 <= k < t.len() && t[k] == front[i];
            assert(s[k] == kept[i]);
        }
    }
}

proof fn lemma_by_id_distinct(s: Seq<DeviceView>)
    requires
        distinct_ids(s),
    ensures
        distinct_ids(by_id(s)),
    decreases s.len(),
{
    broadcast use vstd::seq_lib::group_to_multiset_ensures;

    if s.len() > 0 {
        let t = s.drop_last();
        lemma_by_id_distinct(t);
        law_by_id_sorts(t);
        assert forall|i: int| 0 <= i < by_id(t).len() implies (#[trigger] by_id(t)[i]).id
            != s.last().id by {
            assert(by_id(t).contains(by_id(t)[i]));
            assert(by_id(t).to_multiset().count(by_id(t)[i]) > 0);
            assert(t.to_multiset().count(by_id(t)[i]) > 0);
            assert(t.contains(by_id(t)[i]));
            let k = choose|k: int| 0 <= k < t.len() && t[k] == by_id(t)[i];
            assert(s[k] == t[k]);
        }
        lemma_placed_distinct(by_id(t), s.last());
    }
}

proof fn lemma_placed_distinct(s: Seq<DeviceView>, d: DeviceView)
    requires
        distinct_ids(s),
        forall|i: int| 0 <= i < s.len() ==> (#[trigger] s[i]).id != d.id,
    ensures
        distinct_ids(placed(s, d)),
        forall|x: DeviceView| #[trigger] placed(s, d).contains(x) ==> x == d || s.contains(x),
    decreases s.len(),
{
    let all = placed(s, d);
    if s.len() > 0 && before(d.id, s.last().id) {
        let t = s.drop_last();
        lemma_placed_distinct(t, d);
        let front = placed(t, d);
        assert forall|i: int, j: int| 0 <= i < j < all.len() implies (#[trigger] all[i]).id != (
        #[trigger] all[j]).id by {
            assert(front.contains(front[i]));
            if j == front.len() && front[i] != d {
                let k = choose|k: int| 0 <= k < t.len() && t[k] == front[i];
                assert(s[k] == all[i]);
            }
        }
        assert forall|x: DeviceView| #[trigger] all.contains(x) implies x == d || s.contains(x) by {
            let i = choose|i: int| 0 <= i < all.len() && all[i] == x;
            if i < front.len() {
                assert(front.contains(x));
                if x != d {
                    let k = choose|k: int| 0 <= k < t.len() && t[k] == x;
                    assert(s[k] == x);
                }
            } else {
                assert(s[s.len() - 1] == x);
            }
        }
    } else {
        assert forall|x: DeviceView| #[trigger] all.contains(x) implies x == d || s.contains(x) by {
            let i = choose|i: int| 0 <= i < all.len() && all[i] == x;
            if i < s.len() {
                assert(s[i] == x);
            }
        }
    }
}

/// Devices with identities of their own have one order.
proof fn lemma_one_order(s: Seq<DeviceView>, t: Seq<DeviceView>)
    requires
        sorted_by_id(s),
        sorted_by_id(t),
        distinct_ids(s),
        distinct_ids(t),
        forall|d: DeviceView| #[trigger] s.contains(d) <==> t.contains(d),
    ensures
        s == t,
    decreases s.len(),
{
    if s.len() == 0 {
        if t.len() > 0 {
            assert(t.contains(t[0]));
            assert(s.contains(t[0]));
        }
        assert(s =~= t);
    } else {
        assert(s.contains(s.last()));
        assert(t.contains(s.last()));
        let j = choose|j: int| 0 <= j < t.len() && t[j] == s.last();
        assert(t.contains(t.last()));
        assert(s.contains(t.last()));
        let i = choose|i: int| 0 <= i < s.len() && s[i] == t.last();
        if i < s.len() - 1 {
            assert(s[i].id != s[s.len() - 1].id);
            lemma_before_total(s[i].id, s.last().id);
            assert(!before(s[s.len() - 1].id, s[i].id));
            assert(j < t.len() - 1);
            assert(!before(t[t.len() - 1].id, t[j].id));
            assert(false);
        }
        let front = s.drop_last();
        let other = t.drop_last();
        assert forall|d: DeviceView| #[trigger] front.contains(d) <==> other.contains(d) by {
            if front.contains(d) {
                let k = choose|k: int| 0 <= k < front.len() && front[k] == d;
                assert(s[k] == d);
                assert(s.contains(d));
                let m = choose|m: int| 0 <= m < t.len() && t[m] == d;
                assert(s[k].id != s[s.len() - 1].id);
                assert(other[m] == d);
            }
            if other.contains(d) {
                let k = choose|k: int| 0 <= k < other.len() && other[k] == d;
                assert(t[k] == d);
                assert(t.contains(d));
                assert(s.contains(d));
                let m = choose|m: int| 0 <= m < s.len() && s[m] == d;
                assert(t[k].id != t[t.len() - 1].id);
                assert(front[m] == d);
            }
        }
        lemma_one_order(front, other);
        assert(s =~= front.push(s.last()));
        assert(t =~= other.push(t.last()));
    }
}

/// The order in which an inventory lists its devices does not change what a target gets.
pub proof fn law_inventory_order_is_ignored(
    requirement: Accelerator,
    inventory: InventoryView,
    other: InventoryView,
)
    requires
        inventory.backend == other.backend,
        inventory.devices.to_multiset() == other.devices.to_multiset(),
        distinct_ids(inventory.devices),
        distinct_ids(other.devices),
    ensures
        matching_of(requirement, inventory) == matching_of(requirement, other),
{
    broadcast use vstd::seq_lib::group_to_multiset_ensures;

    let pred = |d: DeviceView| fits(requirement, d);
    let kept = inventory.devices.filter(pred);
    let also = other.devices.filter(pred);
    law_by_id_sorts(kept);
    law_by_id_sorts(also);
    lemma_filter_distinct(inventory.devices, pred);
    lemma_filter_distinct(other.devices, pred);
    lemma_by_id_distinct(kept);
    lemma_by_id_distinct(also);
    lemma_filter_members(inventory.devices, pred);
    lemma_filter_members(other.devices, pred);
    assert forall|d: DeviceView| #[trigger] by_id(kept).contains(d) <==> by_id(also).contains(d) by {
        assert(by_id(kept).contains(d) <==> by_id(kept).to_multiset().count(d) > 0);
        assert(by_id(also).contains(d) <==> by_id(also).to_multiset().count(d) > 0);
        assert(kept.contains(d) <==> kept.to_multiset().count(d) > 0);
        assert(also.contains(d) <==> also.to_multiset().count(d) > 0);
        assert(inventory.devices.contains(d) <==> inventory.devices.to_multiset().count(d) > 0);
        assert(other.devices.contains(d) <==> other.devices.to_multiset().count(d) > 0);
    }
    lemma_one_order(by_id(kept), by_id(also));
}

/// A device that is left out leaves the others where they are.
proof fn lemma_placed_filter(s: Seq<DeviceView>, d: DeviceView, pred: spec_fn(DeviceView) -> bool)
    requires
        sorted_by_id(s),
    ensures
        placed(s, d).filter(pred) == if pred(d) {
            placed(s.filter(pred), d)
        } else {
            s.filter(pred)
        },
    decreases s.len(),
{
    broadcast use Seq::lemma_filter_push;

    if s.len() == 0 {
        reveal(Seq::filter);
    } else {
        let t = s.drop_last();
        assert(s =~= t.push(s.last()));
        if before(d.id, s.last().id) {
            lemma_placed_filter(t, d, pred);
            if pred(s.last()) {
                assert(s.filter(pred).drop_last() =~= t.filter(pred));
            }
        } else if pred(d) {
            lemma_filter_members(s, pred);
            let kept = s.filter(pred);
            if kept.len() > 0 {
                assert(kept.contains(kept.last()));
                let k = choose|k: int| 0 <= k < s.len() && s[k] == kept.last();
                if before(d.id, s[k].id) {
                    if k < s.len() - 1 {
                        assert(!before(s[s.len() - 1].id, s[k].id));
                        if s[k].id != s.last().id {
                            lemma_before_total(s[k].id, s.last().id);
                            lemma_before_transitive(d.id, s[k].id, s.last().id);
                        }
                    }
                    assert(before(d.id, s.last().id));
                }
            }
        }
    }
}

proof fn lemma_by_id_filter(s: Seq<DeviceView>, pred: spec_fn(DeviceView) -> bool)
    ensures
        by_id(s).filter(pred) == by_id(s.filter(pred)),
    decreases s.len(),
{
    broadcast use Seq::lemma_filter_push;

    if s.len() == 0 {
        reveal(Seq::filter);
    } else {
        let t = s.drop_last();
        assert(s =~= t.push(s.last()));
        lemma_by_id_filter(t, pred);
        law_by_id_sorts(t);
        lemma_placed_filter(by_id(t), s.last(), pred);
        if pred(s.last()) {
            assert(s.filter(pred).drop_last() =~= t.filter(pred));
        }
    }
}

proof fn lemma_filter_twice(
    s: Seq<DeviceView>,
    weak: spec_fn(DeviceView) -> bool,
    strong: spec_fn(DeviceView) -> bool,
)
    requires
        forall|d: DeviceView| #[trigger] strong(d) ==> weak(d),
    ensures
        s.filter(weak).filter(strong) == s.filter(strong),
    decreases s.len(),
{
    broadcast use Seq::lemma_filter_push;

    if s.len() == 0 {
        reveal(Seq::filter);
    } else {
        let t = s.drop_last();
        assert(s =~= t.push(s.last()));
        lemma_filter_twice(t, weak, strong);
    }
}

proof fn lemma_lookup_place<W>(s: Seq<(Seq<char>, W)>, k: Seq<char>) -> (i: int)
    requires
        lookup(s, k) is Some,
    ensures
        0 <= i < s.len(),
        s[i] == (k, lookup(s, k)->0),
    decreases s.len(),
{
    if s.last().0 == k {
        s.len() - 1
    } else {
        lemma_lookup_place(s.drop_last(), k)
    }
}

/// Whether a requirement asks for all that another asks for, and at most for more memory and
/// more entries of the topology.
pub open spec fn at_least(strong: Accelerator, weak: Accelerator) -> bool {
    &&& strong.id@ == weak.id@
    &&& strong.count == weak.count
    &&& texts(strong.architectures@) == texts(weak.architectures@)
    &&& text_of(strong.driver_range) == text_of(weak.driver_range)
    &&& text_of(strong.runtime_version) == text_of(weak.runtime_version)
    &&& strong.min_memory_mib >= weak.min_memory_mib
    &&& topology_fits(weak.topology@, strong.topology@)
}

/// Who asks for more memory or for more of the topology gets no other device than before: what
/// was found is found with less as well, in the same order, among the devices that only the
/// lesser requirement admits.
pub proof fn law_asking_for_more_finds_fewer(
    strong: Accelerator,
    weak: Accelerator,
    inventory: InventoryView,
)
    requires
        at_least(strong, weak),
    ensures
        matching_of(strong, inventory) matches Ok(fewer) ==> (matching_of(weak, inventory) matches Ok(
            more,
        ) && fewer == more.filter(|d: DeviceView| fits(strong, d))),
{
    let loose = |d: DeviceView| fits(weak, d);
    let tight = |d: DeviceView| fits(strong, d);
    if matching_of(strong, inventory) is Ok {
        if strong.id@ == "cpu"@ {
            reveal(Seq::filter);
        } else {
            assert(strong.driver_range->0@ == weak.driver_range->0@);
            assert forall|d: DeviceView| #[trigger] tight(d) implies loose(d) by {
                assert forall|i: int| 0 <= i < weak.topology@.len() implies lookup(
                    d.topology,
                    (#[trigger] weak.topology@[i]).0,
                ) == Some(weak.topology@[i].1) by {
                    let j = lemma_lookup_place(strong.topology@, weak.topology@[i].0);
                    assert(strong.topology@[j].0 == weak.topology@[i].0);
                }
            }
            let kept = inventory.devices.filter(loose);
            lemma_filter_twice(inventory.devices, loose, tight);
            lemma_by_id_filter(kept, tight);
            by_id(kept).lemma_filter_len(tight);
        }
    }
}

/// In a sound inventory no two devices share an identity or an index.
pub proof fn law_inventory_identities_are_unique(inventory: InventoryView, backend: Seq<char>)
    requires
        inventory_check(inventory, backend) is Ok,
    ensures
        forall|i: int, j: int|
            0 <= i < j < inventory.devices.len() ==> (#[trigger] inventory.devices[i]).id != (
            #[trigger] inventory.devices[j]).id && inventory.devices[i].index
                != inventory.devices[j].index,
{
    let check = |i: int| device_check(inventory.devices, i);
    let all = places(inventory.devices.len());
    lemma_no_fault(all, check);
    assert forall|i: int, j: int| 0 <= i < j < inventory.devices.len() implies (
    #[trigger] inventory.devices[i]).id != (#[trigger] inventory.devices[j]).id
        && inventory.devices[i].index != inventory.devices[j].index by {
        assert(all[j] == j);
        assert(check(all[j]) is Ok);
        assert(!repeated(inventory.devices, j));
    }
}

/// An allocation never holds more devices than the target asked for, and only
/// candidates whose lock it acquired.
pub proof fn law_allocation_is_bounded(p: PlanView)
    requires
        plan_valid(p),
        p.count > 0,
    ensures
        acquired(p.candidates, p.taken).len() <= p.count,
        forall|d: DeviceView| #[trigger]
            acquired(p.candidates, p.taken).contains(d) ==> exists|i: int|
                0 <= i < p.taken.len() && p.taken[i] && #[trigger] p.candidates[i] == d,
    decreases p.taken.len(),
{
    let all = acquired(p.candidates, p.taken);
    if p.taken.len() > 0 {
        let q = plan_at(p, p.taken.len() - 1);
        assert(q.taken =~= p.taken.drop_last());
        assert forall|n: int| 0 <= n < q.taken.len() implies !settled(#[trigger] plan_at(q, n)) by {
            assert(plan_at(q, n).taken =~= plan_at(p, n).taken);
            assert(!settled(plan_at(p, n)));
        }
        law_allocation_is_bounded(q);
        lemma_unsettled_is_short(q);
        assert forall|d: DeviceView| #[trigger] all.contains(d) implies exists|i: int|
            0 <= i < p.taken.len() && p.taken[i] && #[trigger] p.candidates[i] == d by {
            let k = choose|k: int| 0 <= k < all.len() && all[k] == d;
            let before_last = acquired(p.candidates, q.taken);
            if k < before_last.len() {
                assert(before_last[k] == d);
                assert(before_last.contains(d));
                let i = choose|i: int|
                    0 <= i < q.taken.len() && q.taken[i] && #[trigger] q.candidates[i] == d;
                assert(p.candidates[i] == d && p.taken[i]);
            } else {
                assert(p.candidates[p.taken.len() - 1] == d);
            }
        }
    }
}

/// While an allocation goes on, devices are still missing.
proof fn lemma_unsettled_is_short(p: PlanView)
    requires
        plan_valid(p),
        p.count > 0,
        !settled(p),
    ensures
        acquired(p.candidates, p.taken).len() < p.count,
    decreases p.taken.len(),
{
    if p.taken.len() > 0 {
        let q = plan_at(p, p.taken.len() - 1);
        assert(q.taken =~= p.taken.drop_last());
        assert forall|n: int| 0 <= n < q.taken.len() implies !settled(#[trigger] plan_at(q, n)) by {
            assert(plan_at(q, n).taken =~= plan_at(p, n).taken);
            assert(!settled(plan_at(p, n)));
        }
        assert(!settled(q));
        lemma_unsettled_is_short(q);
    }
}

/// The name of the lock that a plan tries for one of its candidates.
pub open spec fn candidate_lock(p: PlanView, i: int) -> Seq<char> {
    lock_name_of(backend_id(p.adapter), p.candidates[i].id)
}

/// Whether an allocation holds a lock.
pub open spec fn holds_lock(p: PlanView, name: Seq<char>) -> bool {
    exists|i: int| 0 <= i < p.taken.len() && p.taken[i] && #[trigger] candidate_lock(p, i) == name
}

/// Two allocations share no device, as long as no lock that the one holds is granted to the
/// other.
pub proof fn law_allocations_are_exclusive(p: PlanView, q: PlanView)
    requires
        p.adapter == q.adapter,
        forall|i: int|
            0 <= i < q.taken.len() && q.taken[i] ==> !holds_lock(p, #[trigger] candidate_lock(q, i)),
    ensures
        forall|d: DeviceView, e: DeviceView| #[trigger]
            acquired(p.candidates, p.taken).contains(d) && #[trigger] acquired(
                q.candidates,
                q.taken,
            ).contains(e) ==> d.id != e.id,
{
    assert forall|d: DeviceView, e: DeviceView| #[trigger]
        acquired(p.candidates, p.taken).contains(d) && #[trigger] acquired(
            q.candidates,
            q.taken,
        ).contains(e) implies d.id != e.id by {
        let i = lemma_acquired_place(p.candidates, p.taken, d);
        let j = lemma_acquired_place(q.candidates, q.taken, e);
        if d.id == e.id {
            assert(candidate_lock(p, i) == candidate_lock(q, j));
            assert(holds_lock(p, candidate_lock(q, j)));
        }
    }
}

/// What was acquired stands among the candidates, and its lock was granted.
proof fn lemma_acquired_place(
    candidates: Seq<DeviceView>,
    taken: Seq<bool>,
    d: DeviceView,
) -> (i: int)
    requires
        acquired(candidates, taken).contains(d),
    ensures
        0 <= i < taken.len(),
        taken[i],
        candidates[i] == d,
    decreases taken.len(),
{
    let all = acquired(candidates, taken);
    let k = choose|k: int| 0 <= k < all.len() && all[k] == d;
    let front = taken.drop_last();
    if taken.last() && k == all.len() - 1 {
        taken.len() - 1
    } else {
        assert(acquired(candidates, front)[k] == d);
        lemma_acquired_place(candidates, front, d)
    }
}

/// The candidates whose lock nobody else holds.
pub open spec fn free_among(
    candidates: Seq<DeviceView>,
    backend: Seq<char>,
    held: Set<Seq<char>>,
) -> Seq<DeviceView> {
    candidates.filter(|d: DeviceView| !held.contains(lock_name_of(backend, d.id)))
}

/// Whether a plan was granted exactly the locks that nobody else holds.
pub open spec fn granted_if_free(p: PlanView, held: Set<Seq<char>>) -> bool {
    forall|i: int|
        0 <= i < p.taken.len() ==> #[trigger] p.taken[i] == !held.contains(candidate_lock(p, i))
}

/// What was acquired so far are the free ones among the candidates tried.
proof fn lemma_acquired_are_free(p: PlanView, held: Set<Seq<char>>)
    requires
        p.taken.len() <= p.candidates.len(),
        granted_if_free(p, held),
    ensures
        acquired(p.candidates, p.taken) == free_among(
            p.candidates.take(p.taken.len() as int),
            backend_id(p.adapter),
            held,
        ),
    decreases p.taken.len(),
{
    reveal(Seq::filter);
    let n = p.taken.len() as int;
    let free = |d: DeviceView| !held.contains(lock_name_of(backend_id(p.adapter), d.id));
    if n == 0 {
        assert(p.candidates.take(0).filter(free) =~= Seq::empty());
    } else {
        let q = plan_at(p, n - 1);
        assert(q.taken =~= p.taken.drop_last());
        assert forall|i: int| 0 <= i < q.taken.len() implies #[trigger] q.taken[i] == !held.contains(
            candidate_lock(q, i),
        ) by {
            assert(p.taken[i] == !held.contains(candidate_lock(p, i)));
        }
        lemma_acquired_are_free(q, held);
        let tried = p.candidates.take(n);
        assert(tried.drop_last() =~= p.candidates.take(n - 1));
        assert(p.taken[n - 1] == !held.contains(candidate_lock(p, n - 1)));
    }
}

/// The free ones among the first candidates come first among all free ones.
proof fn lemma_free_prefix(s: Seq<DeviceView>, n: int, free: spec_fn(DeviceView) -> bool)
    requires
        0 <= n <= s.len(),
    ensures
        s.take(n).filter(free).len() <= s.filter(free).len(),
        s.take(n).filter(free) == s.filter(free).take(s.take(n).filter(free).len() as int),
    decreases s.len() - n,
{
    reveal(Seq::filter);
    if n == s.len() {
        assert(s.take(n) =~= s);
        assert(s.filter(free).take(s.filter(free).len() as int) =~= s.filter(free));
    } else {
        lemma_free_prefix(s, n + 1, free);
        assert(s.take(n + 1).drop_last() =~= s.take(n));
        let a = s.take(n).filter(free);
        let b = s.take(n + 1).filter(free);
        assert(a =~= b.take(a.len() as int));
        assert(a =~= s.filter(free).take(a.len() as int));
    }
}

/// What was acquired of candidates in order is in order.
proof fn lemma_acquired_sorted(candidates: Seq<DeviceView>, taken: Seq<bool>)
    requires
        sorted_by_id(candidates),
        taken.len() <= candidates.len(),
    ensures
        sorted_by_id(acquired(candidates, taken)),
    decreases taken.len(),
{
    if taken.len() > 0 {
        let front = acquired(candidates, taken.drop_last());
        let all = acquired(candidates, taken);
        lemma_acquired_sorted(candidates, taken.drop_last());
        if taken.last() {
            assert forall|i: int, j: int| 0 <= i < j < all.len() implies !before(
                (#[trigger] all[j]).id,
                (#[trigger] all[i]).id,
            ) by {
                assert(front.contains(front[i]));
                if j == front.len() {
                    let k = lemma_acquired_place(candidates, taken.drop_last(), front[i]);
                    assert(!before(candidates[taken.len() - 1].id, candidates[k].id));
                } else {
                    assert(all[j] == front[j]);
                }
            }
        }
    }
}

/// An allocation gets the first devices that fit and that nobody else holds, exactly as many
/// as were asked for, in the order of their identities; where there are fewer, it fails. So
/// what another allocation gives back can be had again.
pub proof fn law_allocation_takes_what_is_free(
    requirement: Accelerator,
    inventory: InventoryView,
    p: PlanView,
    held: Set<Seq<char>>,
)
    requires
        plan_of(requirement, inventory) matches Ok(start) && p == (PlanView {
            taken: p.taken,
            ..start
        }),
        requirement.id@ != "cpu"@,
        requirement.count > 0,
        plan_valid(p),
        settled(p),
        granted_if_free(p, held),
    ensures
        ({
            let found = matching_of(requirement, inventory)->Ok_0;
            let free = free_among(found, backend_id(p.adapter), held);
            let got = acquired(p.candidates, p.taken);
            &&& free.len() < requirement.count ==> allocation_of(p, inventory) == Err::<
                LaunchView,
                Seq<Seq<char>>,
            >(seq!["compatible devices are already allocated"@])
            &&& free.len() >= requirement.count ==> got == free.take(requirement.count as int)
                && allocation_of(p, inventory) == configuration(p.adapter, got, inventory)
            &&& allocation_of(p, inventory) matches Ok(launch) ==> launch.devices == got
                && got.len() == requirement.count && sorted_by_id(got) && forall|d: DeviceView|
                #[trigger] got.contains(d) ==> found.contains(d) && !held.contains(
                    lock_name_of(backend_id(p.adapter), d.id),
                )
        }),
{
    let found = matching_of(requirement, inventory)->Ok_0;
    let backend = backend_id(p.adapter);
    let is_free = |d: DeviceView| !held.contains(lock_name_of(backend, d.id));
    let free = free_among(found, backend, held);
    let got = acquired(p.candidates, p.taken);
    let n = p.taken.len() as int;
    lemma_acquired_are_free(p, held);
    lemma_free_prefix(found, n, is_free);
    law_allocation_is_bounded(p);
    if n == found.len() {
        assert(found.take(n) =~= found);
        assert(got == free);
    }
    assert(got =~= free.take(got.len() as int));
    if free.len() >= requirement.count {
        assert(got.len() == requirement.count);
    }
    law_matching_devices_fit(requirement, inventory);
    lemma_acquired_sorted(p.candidates, p.taken);
    assert forall|d: DeviceView| #[trigger] got.contains(d) implies found.contains(d)
        && !held.contains(lock_name_of(backend, d.id)) by {
        let i = lemma_acquired_place(p.candidates, p.taken, d);
        assert(found[i] == d);
        assert(p.taken[i] == !held.contains(candidate_lock(p, i)));
    }
}

/// A node that was taken out of service allocates nothing.
pub proof fn law_quarantined_nodes_allocate_nothing(
    requirement: Accelerator,
    inventory: InventoryView,
    lock_root: Seq<char>,
)
    ensures
        allocation_start(requirement, inventory, lock_root, true) is Err,
{
}

/// The backends without a container take the whole node: all of a TPU's topology, or the
/// one device of Apple's.
pub proof fn law_native_backends_take_the_whole_node(
    a: Adapter,
    devices: Seq<DeviceView>,
    inventory: InventoryView,
)
    requires
        configuration(a, devices, inventory) is Ok,
    ensures
        a == Adapter::Tpu ==> devices.len() == inventory.devices.len(),
        a == Adapter::Metal ==> devices.len() == 1 && inventory.devices.len() == 1,
{
}

/// Whether an argument shows a device to a container: by its identity, by a node of its own,
/// or by a mount of its driver.
pub open spec fn shows(arg: Seq<char>, d: DeviceView) -> bool {
    ||| arg == "--device=nvidia.com/gpu="@ + d.id
    ||| exists|n: Seq<char>| #[trigger] d.device_nodes.contains(n) && arg == "--device="@ + n
    ||| exists|m: (Seq<char>, Seq<char>)| #[trigger]
        d.driver_mounts.contains(m) && arg == mount_arg(m.0, m.1)
}

/// Whatever a container is shown belongs to a device that was allocated, and the launch lists
/// exactly the devices that were allocated.
pub proof fn law_only_allocated_devices_are_shown(
    a: Adapter,
    devices: Seq<DeviceView>,
    inventory: InventoryView,
    i: int,
)
    requires
        configuration(a, devices, inventory) is Ok,
        0 <= i < configuration(a, devices, inventory)->Ok_0.args.len(),
    ensures
        configuration(a, devices, inventory)->Ok_0.devices == devices,
        exists|k: int|
            0 <= k < devices.len() && shows(
                configuration(a, devices, inventory)->Ok_0.args[i],
                #[trigger] devices[k],
            ),
{
    let args = configuration(a, devices, inventory)->Ok_0.args;
    if a == Adapter::Cuda {
        assert(args[i] == "--device=nvidia.com/gpu="@ + ids(devices)[i]);
        assert(shows(args[i], devices[i]));
    } else {
        let nodes = node_set(devices);
        let mounts = put_all(no_env(), all_mounts(devices));
        if i < nodes.len() {
            assert(args[i] == prefixed("--device="@, nodes)[i]);
            lemma_node_owner(devices, i);
            let k = choose|k: int|
                0 <= k < devices.len() && (#[trigger] devices[k]).device_nodes.contains(nodes[i]);
            assert(shows(args[i], devices[k]));
        } else {
            let m = mounts[i - nodes.len()];
            assert(args[i] == mount_args(mounts)[i - nodes.len()]);
            assert(mounts.contains(m));
            lemma_put_all_members(all_mounts(devices), m);
            lemma_mount_owner(devices, m);
            let k = choose|k: int|
                0 <= k < devices.len() && (#[trigger] devices[k]).driver_mounts.contains(m);
            assert(shows(args[i], devices[k]));
        }
    }
}

/// Every node in the set is one of a device's.
proof fn lemma_node_owner(devices: Seq<DeviceView>, i: int)
    requires
        0 <= i < node_set(devices).len(),
    ensures
        exists|k: int|
            0 <= k < devices.len() && (#[trigger] devices[k]).device_nodes.contains(
                node_set(devices)[i],
            ),
{
    let all = all_nodes(devices);
    let listed = all.map_values(|t: Seq<char>| (t, ()));
    let set = as_set(all);
    assert(set.contains(set[i]));
    lemma_put_all_members(listed, set[i]);
    let j = choose|j: int| 0 <= j < listed.len() && listed[j] == set[i];
    assert(all[j] == node_set(devices)[i]);
    assert(all.contains(node_set(devices)[i]));
    lemma_all_nodes_owner(devices, node_set(devices)[i]);
}

pub proof fn lemma_all_nodes_owner(devices: Seq<DeviceView>, n: Seq<char>)
    requires
        all_nodes(devices).contains(n),
    ensures
        exists|k: int|
            0 <= k < devices.len() && (#[trigger] devices[k]).device_nodes.contains(n),
    decreases devices.len(),
{
    let all = all_nodes(devices);
    let j = choose|j: int| 0 <= j < all.len() && all[j] == n;
    let front = all_nodes(devices.drop_last());
    if j < front.len() {
        assert(front[j] == n);
        lemma_all_nodes_owner(devices.drop_last(), n);
        let k = choose|k: int|
            0 <= k < devices.drop_last().len() && (
            #[trigger] devices.drop_last()[k]).device_nodes.contains(n);
        assert(devices[k].device_nodes.contains(n));
    } else {
        let last = devices[devices.len() - 1];
        assert(last.device_nodes[j - front.len()] == n);
        assert(last.device_nodes.contains(n));
    }
}

proof fn lemma_mount_owner(devices: Seq<DeviceView>, m: (Seq<char>, Seq<char>))
    requires
        all_mounts(devices).contains(m),
    ensures
        exists|k: int|
            0 <= k < devices.len() && (#[trigger] devices[k]).driver_mounts.contains(m),
    decreases devices.len(),
{
    let all = all_mounts(devices);
    let j = choose|j: int| 0 <= j < all.len() && all[j] == m;
    let front = all_mounts(devices.drop_last());
    if j < front.len() {
        assert(front[j] == m);
        lemma_mount_owner(devices.drop_last(), m);
        let k = choose|k: int|
            0 <= k < devices.drop_last().len() && (
            #[trigger] devices.drop_last()[k]).driver_mounts.contains(m);
        assert(devices[k].driver_mounts.contains(m));
    } else {
        let last = devices[devices.len() - 1];
        assert(last.driver_mounts[j - front.len()] == m);
        assert(last.driver_mounts.contains(m));
    }
}

// ------------------------------------------------- what a target is owed

/// Whether a device has what a requirement asks for: the memory, one of the architectures that
/// are listed, wherever in the list, the one runtime, a driver in the range, and every pair of the
/// topology.
pub open spec fn is_wanted(requirement: Accelerator, d: DeviceView) -> bool {
    &&& requirement.min_memory_mib <= d.memory_mib
    &&& exists|i: int|
        0 <= i < requirement.architectures@.len() && (#[trigger] requirement.architectures@[i])@
            == d.architecture
    &&& requirement.runtime_version is Some && requirement.runtime_version->0@ == d.runtime_version
    &&& driver_version_of(d.driver_version) matches Ok(v) && admitted(
        requirement.driver_range->0@,
        v.major,
        v.minor,
        v.patch,
        v.pre,
    )
    &&& forall|i: int|
        0 <= i < requirement.topology@.len() ==> lookup(
            d.topology,
            (#[trigger] requirement.topology@[i]).0,
        ) == Some(requirement.topology@[i].1)
}

proof fn lemma_wanted_fits(requirement: Accelerator, d: DeviceView)
    ensures
        fits(requirement, d) <==> is_wanted(requirement, d),
{
    let listed = texts(requirement.architectures@);
    if listed.contains(d.architecture) {
        let i = choose|i: int| 0 <= i < listed.len() && listed[i] == d.architecture;
        assert(requirement.architectures@[i]@ == d.architecture);
    }
    if exists|i: int|
        0 <= i < requirement.architectures@.len() && (#[trigger] requirement.architectures@[i])@
            == d.architecture {
        let i = choose|i: int|
            0 <= i < requirement.architectures@.len() && (#[trigger] requirement.architectures@[i])@
                == d.architecture;
        assert(listed[i] == d.architecture);
    }
}

/// A target gets every device that has what it asks for and no other, each as often as the
/// inventory holds it, in the order of their identities. It is refused exactly where the inventory
/// is of another backend, the range of drivers is missing or cannot be read, or too few devices
/// are left. Without an accelerator nothing is asked.
pub proof fn law_wanted_devices_are_found(requirement: Accelerator, inventory: InventoryView)
    ensures
        ({
            let wanted = inventory.devices.filter(|d: DeviceView| is_wanted(requirement, d));
            let r = matching_of(requirement, inventory);
            let known = requirement.driver_range is Some && parsed_range(
                requirement.driver_range->0@,
            ) is Ok;
            &&& requirement.id@ != inventory.backend ==> r is Err
            &&& requirement.id@ == inventory.backend && requirement.id@ == "cpu"@ ==> r == Ok::<
                Seq<DeviceView>,
                Seq<Seq<char>>,
            >(Seq::empty())
            &&& requirement.id@ == inventory.backend && requirement.id@ != "cpu"@ ==> {
                &&& r is Ok <==> known && wanted.len() >= requirement.count
                &&& r is Ok ==> r->Ok_0.to_multiset() == wanted.to_multiset() && forall|i: int, j:
                    int|
                    0 <= i < j < r->Ok_0.len() ==> !before(
                        (#[trigger] r->Ok_0[j]).id,
                        (#[trigger] r->Ok_0[i]).id,
                    )
            }
        }),
        forall|d: DeviceView| #[trigger]
            is_wanted(requirement, d) && inventory.devices.contains(d) && matching_of(
                requirement,
                inventory,
            ) is Ok && requirement.id@ != "cpu"@ ==> matching_of(
                requirement,
                inventory,
            )->Ok_0.contains(d),
{
    let fit = |d: DeviceView| fits(requirement, d);
    let want = |d: DeviceView| is_wanted(requirement, d);
    assert forall|i: int| 0 <= i < inventory.devices.len() implies fit(
        #[trigger] inventory.devices[i],
    ) == want(inventory.devices[i]) by {
        lemma_wanted_fits(requirement, inventory.devices[i]);
    }
    lemma_filter_same(inventory.devices, fit, want);
    law_by_id_sorts(inventory.devices.filter(fit));
    assert forall|d: DeviceView| #[trigger]
        is_wanted(requirement, d) && inventory.devices.contains(d) && matching_of(
            requirement,
            inventory,
        ) is Ok && requirement.id@ != "cpu"@ implies matching_of(
        requirement,
        inventory,
    )->Ok_0.contains(d) by {
        lemma_wanted_fits(requirement, d);
        law_matching_devices_fit(requirement, inventory);
    }
}

/// A list of architectures says the same in whatever order, and a longer one finds no fewer
/// devices: what is found with some architectures is found with more of them as well.
pub proof fn law_more_architectures_find_no_fewer(
    few: Accelerator,
    many: Accelerator,
    inventory: InventoryView,
)
    requires
        few.id@ == many.id@,
        few.id@ != "cpu"@,
        few.count == many.count,
        few.min_memory_mib == many.min_memory_mib,
        text_of(few.driver_range) == text_of(many.driver_range),
        text_of(few.runtime_version) == text_of(many.runtime_version),
        few.topology@ == many.topology@,
        forall|i: int|
            0 <= i < few.architectures@.len() ==> texts(many.architectures@).contains(
                (#[trigger] few.architectures@[i])@,
            ),
    ensures
        matching_of(few, inventory) matches Ok(found) ==> (matching_of(many, inventory) matches Ok(
            more,
        ) && more.len() >= found.len() && forall|d: DeviceView| #[trigger]
            found.contains(d) ==> more.contains(d)),
        (forall|i: int|
            0 <= i < many.architectures@.len() ==> texts(few.architectures@).contains(
                (#[trigger] many.architectures@[i])@,
            )) ==> matching_of(few, inventory) == matching_of(many, inventory),
{
    let tight = |d: DeviceView| fits(few, d);
    let loose = |d: DeviceView| fits(many, d);
    assert(few.driver_range is Some ==> few.driver_range->0@ == many.driver_range->0@);
    if few.driver_range is Some {
        assert forall|d: DeviceView| #[trigger] tight(d) implies loose(d) by {
            let listed = texts(few.architectures@);
            let i = choose|i: int| 0 <= i < listed.len() && listed[i] == d.architecture;
            assert(few.architectures@[i]@ == d.architecture);
        }
        let kept = inventory.devices.filter(loose);
        lemma_filter_twice(inventory.devices, loose, tight);
        lemma_by_id_filter(kept, tight);
        by_id(kept).lemma_filter_len(tight);
        if matching_of(few, inventory) is Ok {
            law_matching_devices_fit(few, inventory);
            law_matching_devices_fit(many, inventory);
            let found = matching_of(few, inventory)->Ok_0;
            assert forall|d: DeviceView| #[trigger] found.contains(d) implies matching_of(
                many,
                inventory,
            )->Ok_0.contains(d) by {
                assert(tight(d));
            }
        }
        if forall|i: int|
            0 <= i < many.architectures@.len() ==> texts(few.architectures@).contains(
                (#[trigger] many.architectures@[i])@,
            ) {
            assert forall|i: int| 0 <= i < inventory.devices.len() implies tight(
                #[trigger] inventory.devices[i],
            ) == loose(inventory.devices[i]) by {
                let d = inventory.devices[i];
                if loose(d) {
                    let listed = texts(many.architectures@);
                    let k = choose|k: int| 0 <= k < listed.len() && listed[k] == d.architecture;
                    assert(many.architectures@[k]@ == d.architecture);
                }
                if tight(d) {
                    assert(loose(d));
                }
            }
            lemma_filter_same(inventory.devices, tight, loose);
        }
    }
}

// ------------------------------------------ what a workload is shown

/// The texts between the commas are what was listed.
proof fn lemma_comma_list(s: Seq<Seq<char>>)
    requires
        s.len() > 0,
        forall|i: int| 0 <= i < s.len() ==> !(#[trigger] s[i]).contains(','),
    ensures
        pieces(joined(s, ","@), ',') == s,
{
    reveal_strlit(",");
    assert(","@ =~= seq![',']);
    law_joined_texts_come_apart(s, ',');
}

proof fn lemma_no_comma(n: nat)
    ensures
        !decimal(n).contains(','),
{
    lemma_decimal_reads_back(n);
    if decimal(n).contains(',') {
        let i = choose|i: int| 0 <= i < decimal(n).len() && decimal(n)[i] == ',';
        assert(is_digit(decimal(n)[i]));
    }
}

proof fn lemma_index_list(devices: Seq<DeviceView>)
    requires
        devices.len() > 0,
    ensures
        pieces(index_list(devices), ',') == Seq::new(
            devices.len(),
            |i: int| decimal(devices[i].index as nat),
        ),
{
    let listed = devices.map_values(|d: DeviceView| decimal(d.index as nat));
    assert forall|i: int| 0 <= i < listed.len() implies !(#[trigger] listed[i]).contains(',') by {
        lemma_no_comma(devices[i].index as nat);
    }
    lemma_comma_list(listed);
    assert(listed =~= Seq::new(devices.len(), |i: int| decimal(devices[i].index as nat)));
}

/// The first four characters of an identity that NVIDIA's runtime takes.
pub open spec fn named_by_nvidia(id: Seq<char>) -> bool {
    id.len() >= 4 && (id.take(4) == "GPU-"@ || id.take(4) == "MIG-"@)
}

/// Every CUDA device that was allocated is handed to the container by its identity, in its order,
/// and all of them are listed for the workload. A device without such an identity is refused.
pub proof fn law_cuda_devices_reach_the_workload(
    devices: Seq<DeviceView>,
    inventory: InventoryView,
)
    requires
        devices.len() > 0,
        forall|i: int| 0 <= i < devices.len() ==> !(#[trigger] devices[i]).id.contains(','),
    ensures
        configuration(Adapter::Cuda, devices, inventory) is Ok <==> forall|i: int|
            0 <= i < devices.len() ==> named_by_nvidia((#[trigger] devices[i]).id),
        configuration(Adapter::Cuda, devices, inventory) matches Ok(l) ==> {
            &&& l.devices == devices
            &&& l.args.len() == devices.len()
            &&& forall|i: int|
                0 <= i < devices.len() ==> #[trigger] l.args[i] == "--device=nvidia.com/gpu="@
                    + devices[i].id
            &&& l.env.len() == 1
            &&& l.env[0].0 == "CUDA_VISIBLE_DEVICES"@
            &&& pieces(l.env[0].1, ',') == Seq::new(devices.len(), |i: int| devices[i].id)
        },
{
    reveal_strlit("GPU-");
    reveal_strlit("MIG-");
    assert forall|i: int| 0 <= i < devices.len() implies (cuda_id((#[trigger] devices[i]).id)
        <==> named_by_nvidia(devices[i].id)) by {
        let id = devices[i].id;
        if id.len() >= 4 {
            assert(id.subrange(0, 4) =~= id.take(4));
        }
    }
    let all = ids(devices);
    assert forall|i: int| 0 <= i < all.len() implies !(#[trigger] all[i]).contains(',') by {
        assert(all[i] == devices[i].id);
    }
    lemma_comma_list(all);
    assert(all =~= Seq::new(devices.len(), |i: int| devices[i].id));
    if let Ok(l) = configuration(Adapter::Cuda, devices, inventory) {
        assert forall|i: int| 0 <= i < devices.len() implies #[trigger] l.args[i]
            == "--device=nvidia.com/gpu="@ + devices[i].id by {
            assert(prefixed("--device=nvidia.com/gpu="@, all)[i] == "--device=nvidia.com/gpu="@
                + all[i]);
        }
    }
}

/// A node is in the set exactly where a device has it.
proof fn lemma_node_set(devices: Seq<DeviceView>, n: Seq<char>)
    ensures
        node_set(devices).contains(n) <==> exists|k: int|
            0 <= k < devices.len() && (#[trigger] devices[k]).device_nodes.contains(n),
        node_set(devices).no_duplicates(),
{
    let all = all_nodes(devices);
    let listed = all.map_values(|t: Seq<char>| (t, ()));
    let set = as_set(all);
    lemma_set_is_ordered(listed);
    assert(node_set(devices).no_duplicates()) by {
        lemma_ordered_keys_differ(set);
        assert forall|i: int, j: int|
            0 <= i < node_set(devices).len() && 0 <= j < node_set(devices).len() && i
                != j implies node_set(devices)[i] != node_set(devices)[j] by {
            assert(node_set(devices)[i] == set[i].0 && node_set(devices)[j] == set[j].0);
            if i < j {
                assert(set[i].0 != set[j].0);
            } else {
                assert(set[j].0 != set[i].0);
            }
        }
    }
    if node_set(devices).contains(n) {
        let i = choose|i: int| 0 <= i < node_set(devices).len() && node_set(devices)[i] == n;
        lemma_node_owner(devices, i);
    }
    if exists|k: int| 0 <= k < devices.len() && (#[trigger] devices[k]).device_nodes.contains(n) {
        let k = choose|k: int|
            0 <= k < devices.len() && (#[trigger] devices[k]).device_nodes.contains(n);
        lemma_nodes_hold(devices, k, n);
        let j = choose|j: int| 0 <= j < all.len() && all[j] == n;
        assert(listed[j] == (n, ()));
        lemma_lookup_found(listed, n);
        lemma_put_all_lookup(Seq::<(Seq<char>, ())>::empty(), listed, n);
        lemma_lookup_found(set, n);
        assert(lookup(listed, n) is Some) by {
            if lookup(listed, n) is None {
                assert(listed[j].0 != n);
            }
        }
        let i = choose|i: int| 0 <= i < set.len() && set[i] == (n, lookup(set, n)->0);
        assert(node_set(devices)[i] == n);
    }
}

proof fn lemma_set_is_ordered<W>(s: Seq<(Seq<char>, W)>)
    ensures
        ordered(put_all(Seq::empty(), s)),
    decreases s.len(),
{
    if s.len() > 0 {
        let e = Seq::<(Seq<char>, W)>::empty();
        lemma_set_is_ordered(s.drop_last());
        lemma_put_ordered(put_all(e, s.drop_last()), s.last().0, s.last().1);
    }
}

pub proof fn lemma_nodes_hold(devices: Seq<DeviceView>, k: int, n: Seq<char>)
    requires
        0 <= k < devices.len(),
        devices[k].device_nodes.contains(n),
    ensures
        all_nodes(devices).contains(n),
    decreases devices.len(),
{
    let front = all_nodes(devices.drop_last());
    let last = devices.last().device_nodes;
    if k < devices.len() - 1 {
        lemma_nodes_hold(devices.drop_last(), k, n);
        let j = choose|j: int| 0 <= j < front.len() && front[j] == n;
        assert(all_nodes(devices)[j] == n);
    } else {
        let j = choose|j: int| 0 <= j < last.len() && last[j] == n;
        assert(all_nodes(devices)[front.len() + j] == n);
    }
}

/// Whether a path is the node of a graphics processor that renders.
pub open spec fn renders(node: Seq<char>) -> bool {
    node.len() >= 16 && node.take(16) == "/dev/dri/renderD"@
}

/// Whether a device has a node that renders.
pub open spec fn can_render(d: DeviceView) -> bool {
    exists|n: Seq<char>| #[trigger] d.device_nodes.contains(n) && renders(n)
}

/// Whether the arguments hand over exactly the nodes of the devices, each of them once.
pub open spec fn hands_over_nodes(args: Seq<Seq<char>>, devices: Seq<DeviceView>) -> bool {
    &&& forall|n: Seq<char>|
        args.contains(#[trigger] ("--device="@ + n)) <==> exists|k: int|
            0 <= k < devices.len() && (#[trigger] devices[k]).device_nodes.contains(n)
    &&& forall|i: int|
        0 <= i < args.len() ==> (#[trigger] args[i]).len() >= 9 && args[i].take(9) == "--device="@
    &&& args.no_duplicates()
}

#[verifier::rlimit(50)]
#[verifier::spinoff_prover]
proof fn lemma_hands_over_nodes(devices: Seq<DeviceView>)
    ensures
        hands_over_nodes(prefixed("--device="@, node_set(devices)), devices),
{
    reveal_strlit("--device=");
    let nodes = node_set(devices);
    let args = prefixed("--device="@, nodes);
    lemma_node_set(devices, Seq::empty());
    assert forall|i: int| 0 <= i < args.len() implies (#[trigger] args[i]).len() >= 9
        && args[i].take(9) == "--device="@ && args[i].skip(9) == nodes[i] by {
        assert(args[i] == "--device="@ + nodes[i]);
        assert(args[i].take(9) =~= "--device="@);
        assert(args[i].skip(9) =~= nodes[i]);
    }
    assert forall|n: Seq<char>|
        args.contains(#[trigger] ("--device="@ + n)) <==> exists|k: int|
            0 <= k < devices.len() && (#[trigger] devices[k]).device_nodes.contains(n) by {
        lemma_node_set(devices, n);
        if args.contains("--device="@ + n) {
            let i = choose|i: int| 0 <= i < args.len() && args[i] == "--device="@ + n;
            assert(args[i].skip(9) =~= n);
            assert(nodes[i] == n);
        }
        if nodes.contains(n) {
            let i = choose|i: int| 0 <= i < nodes.len() && nodes[i] == n;
            assert(args[i] == "--device="@ + n);
        }
    }
    assert forall|i: int, j: int|
        0 <= i < args.len() && 0 <= j < args.len() && i != j implies args[i] != args[j] by {
        if args[i] == args[j] {
            assert(args[i].skip(9) == nodes[i] && args[j].skip(9) == nodes[j]);
        }
    }
}

/// When the render nodes of the devices do.
proof fn lemma_render_args(devices: Seq<DeviceView>, required: Seq<char>)
    ensures
        render_args(devices, required) is Ok <==> (forall|i: int|
            0 <= i < devices.len() ==> can_render(#[trigger] devices[i])) && (forall|i: int, n: Seq<char>|
            0 <= i < devices.len() && #[trigger] devices[i].device_nodes.contains(n) ==> renders(n)
                || n == required),
        render_args(devices, required) matches Ok(args) ==> hands_over_nodes(args, devices),
{
    reveal_strlit("/dev/dri/renderD");
    assert forall|n: Seq<char>| #[trigger] renders(n) == render_node(n) by {
        if n.len() >= 16 {
            assert(n.subrange(0, 16) =~= n.take(16));
        }
    }
    lemma_hands_over_nodes(devices);
    let nodes = node_set(devices);
    assert forall|i: int| 0 <= i < devices.len() implies (has_render_node(#[trigger] devices[i])
        <==> can_render(devices[i])) by {
        let own = devices[i].device_nodes;
        if has_render_node(devices[i]) {
            let k = choose|k: int| 0 <= k < own.len() && render_node(#[trigger] own[k]);
            assert(own.contains(own[k]) && renders(own[k]));
        }
        if can_render(devices[i]) {
            let n = choose|n: Seq<char>| #[trigger] own.contains(n) && renders(n);
            let k = choose|k: int| 0 <= k < own.len() && own[k] == n;
            assert(render_node(own[k]));
        }
    }
    let strange = exists|i: int|
        0 <= i < nodes.len() && !render_node(#[trigger] nodes[i]) && nodes[i] != required;
    if strange {
        let i = choose|i: int|
            0 <= i < nodes.len() && !render_node(#[trigger] nodes[i]) && nodes[i] != required;
        lemma_node_owner(devices, i);
        let k = choose|k: int|
            0 <= k < devices.len() && (#[trigger] devices[k]).device_nodes.contains(nodes[i]);
        assert(devices[k].device_nodes.contains(nodes[i]) && !renders(nodes[i]));
    } else {
        assert forall|i: int, n: Seq<char>|
            0 <= i < devices.len() && #[trigger] devices[i].device_nodes.contains(
                n,
            ) implies renders(n) || n == required by {
            lemma_node_set(devices, n);
            let j = choose|j: int| 0 <= j < nodes.len() && nodes[j] == n;
            assert(render_node(nodes[j]) || nodes[j] == required);
            assert(renders(n) == render_node(n));
        }
    }
}

/// Every node of every AMD device that was allocated is handed to the container, and the index of
/// each is listed for the workload. Each device needs the node that all of them share and a node
/// that renders, and may have no other.
pub proof fn law_rocm_devices_reach_the_workload(
    devices: Seq<DeviceView>,
    inventory: InventoryView,
)
    requires
        devices.len() > 0,
    ensures
        configuration(Adapter::Rocm, devices, inventory) is Ok <==> (forall|i: int|
            0 <= i < devices.len() ==> (#[trigger] devices[i]).device_nodes.contains("/dev/kfd"@)
                && can_render(devices[i])) && (forall|i: int, n: Seq<char>|
            0 <= i < devices.len() && #[trigger] devices[i].device_nodes.contains(n) ==> renders(n)
                || n == "/dev/kfd"@),
        configuration(Adapter::Rocm, devices, inventory) matches Ok(l) ==> {
            &&& l.devices == devices
            &&& hands_over_nodes(l.args, devices)
            &&& l.env.len() == 1
            &&& l.env[0].0 == "ROCR_VISIBLE_DEVICES"@
            &&& pieces(l.env[0].1, ',') == Seq::new(
                devices.len(),
                |i: int| decimal(devices[i].index as nat),
            )
        },
{
    lemma_render_args(devices, "/dev/kfd"@);
    lemma_index_list(devices);
    if configuration(Adapter::Rocm, devices, inventory) is Ok {
        assert forall|i: int| 0 <= i < devices.len() implies (
        #[trigger] devices[i]).device_nodes.contains("/dev/kfd"@) by {}
    }
}

/// Every node of every Intel device that was allocated is handed to the container, and the index
/// of each is listed for the workload behind the name of the driver.
#[verifier::rlimit(50)]
#[verifier::spinoff_prover]
pub proof fn law_oneapi_devices_reach_the_workload(
    devices: Seq<DeviceView>,
    inventory: InventoryView,
)
    requires
        devices.len() > 0,
        forall|i: int|
            0 <= i < devices.len() ==> !(#[trigger] devices[i]).device_nodes.contains(Seq::empty()),
    ensures
        configuration(Adapter::Oneapi, devices, inventory) is Ok <==> (forall|i: int|
            0 <= i < devices.len() ==> can_render(#[trigger] devices[i])) && (forall|i: int, n: Seq<char>|
            0 <= i < devices.len() && #[trigger] devices[i].device_nodes.contains(n) ==> renders(
                n,
            )),
        configuration(Adapter::Oneapi, devices, inventory) matches Ok(l) ==> {
            &&& l.devices == devices
            &&& hands_over_nodes(l.args, devices)
            &&& l.env.len() == 2
            &&& lookup(l.env, "ZE_FLAT_DEVICE_HIERARCHY"@) == Some("COMPOSITE"@)
            &&& lookup(l.env, "ONEAPI_DEVICE_SELECTOR"@) matches Some(shown) && shown.len() >= 11
                && shown.take(11) == "level_zero:"@ && pieces(shown.skip(11), ',') == Seq::new(
                devices.len(),
                |i: int| decimal(devices[i].index as nat),
            )
        },
{
    reveal_strlit("");
    reveal_strlit("level_zero:");
    reveal_strlit("ONEAPI_DEVICE_SELECTOR");
    reveal_strlit("ZE_FLAT_DEVICE_HIERARCHY");
    assert("ONEAPI_DEVICE_SELECTOR"@.len() != "ZE_FLAT_DEVICE_HIERARCHY"@.len());
    assert(""@ =~= Seq::empty());
    lemma_render_args(devices, ""@);
    lemma_index_list(devices);
    assert forall|i: int, n: Seq<char>|
        0 <= i < devices.len() && #[trigger] devices[i].device_nodes.contains(n) implies n
        != ""@ by {}
    if let Ok(l) = configuration(Adapter::Oneapi, devices, inventory) {
        let shown = "level_zero:"@ + index_list(devices);
        let first = put(no_env(), "ONEAPI_DEVICE_SELECTOR"@, shown);
        lemma_put_lookup(no_env(), "ONEAPI_DEVICE_SELECTOR"@, shown, "ONEAPI_DEVICE_SELECTOR"@);
        lemma_put_lookup(
            first,
            "ZE_FLAT_DEVICE_HIERARCHY"@,
            "COMPOSITE"@,
            "ONEAPI_DEVICE_SELECTOR"@,
        );
        reveal_with_fuel(put, 3);
        assert(shown.take(11) =~= "level_zero:"@);
        assert(shown.skip(11) =~= index_list(devices));
    }
}

/// The backends without a container: nothing is handed over, and the workload is told which
/// platform it runs on. All of a TPU's topology is needed, and exactly one device of Apple's.
pub proof fn law_native_backends_tell_the_platform(
    devices: Seq<DeviceView>,
    inventory: InventoryView,
)
    ensures
        configuration(Adapter::Cpu, devices, inventory) matches Ok(l) && l.args.len() == 0
            && l.env.len() == 0 && l.devices.len() == 0,
        configuration(Adapter::Tpu, devices, inventory) is Ok <==> devices.len()
            == inventory.devices.len(),
        configuration(Adapter::Tpu, devices, inventory) matches Ok(l) ==> {
            &&& l.devices == devices
            &&& l.args.len() == 0
            &&& l.env.len() == 2
            &&& lookup(l.env, "JAX_PLATFORMS"@) == Some("tpu"@)
            &&& lookup(l.env, "PJRT_DEVICE"@) == Some("TPU"@)
        },
        configuration(Adapter::Metal, devices, inventory) is Ok <==> devices.len() == 1
            && inventory.devices.len() == 1,
        configuration(Adapter::Metal, devices, inventory) matches Ok(l) ==> {
            &&& l.devices == devices
            &&& l.args.len() == 0
            &&& l.env == seq![("PYTORCH_ENABLE_MPS_FALLBACK"@, "0"@)]
        },
{
    reveal_strlit("JAX_PLATFORMS");
    reveal_strlit("PJRT_DEVICE");
    assert("JAX_PLATFORMS"@.len() != "PJRT_DEVICE"@.len());
    let first = put(no_env(), "JAX_PLATFORMS"@, "tpu"@);
    lemma_put_lookup(no_env(), "JAX_PLATFORMS"@, "tpu"@, "JAX_PLATFORMS"@);
    lemma_put_lookup(first, "PJRT_DEVICE"@, "TPU"@, "JAX_PLATFORMS"@);
    reveal_with_fuel(put, 3);
}

/// What an Ascend device needs: the node of its own number, the driver of the host under the same
/// path, and nothing beyond them but the nodes that all such devices share.
pub open spec fn ascend_is_whole(d: DeviceView, n: nat) -> bool {
    &&& d.device_nodes.contains("/dev/davinci"@ + decimal(n))
    &&& forall|node: Seq<char>| #[trigger]
        d.device_nodes.contains(node) ==> node == "/dev/davinci"@ + decimal(n) || node
            == "/dev/davinci_manager"@ || node == "/dev/devmm_svm"@ || node == "/dev/hisi_hdc"@
    &&& d.driver_mounts.len() > 0
    &&& forall|m: (Seq<char>, Seq<char>)| #[trigger]
        d.driver_mounts.contains(m) ==> m.0 == "/usr/local/Ascend/driver"@ && m.1
            == "/usr/local/Ascend/driver"@
}

proof fn lemma_ascend(d: DeviceView, n: nat)
    requires
        n <= u32::MAX,
        d.id == "ascend-"@ + decimal(n),
    ensures
        ascend_number(d.id) == Ok::<nat, Seq<Seq<char>>>(n),
        cann_check(d) is Ok <==> ascend_is_whole(d, n),
{
    reveal_strlit("ascend-");
    lemma_decimal_reads_back(n);
    assert(d.id.subrange(0, 7) =~= "ascend-"@);
    assert(without(d.id, "ascend-"@) =~= decimal(n));
    assert(is_digit(decimal(n)[0]));
    assert(unsigned_body(decimal(n)) == decimal(n));
    assert(unsigned(decimal(n), u32::MAX as nat) == Some(n));
    lemma_lookup_found(d.driver_mounts, ascend_driver());
    if cann_check(d) is Ok {
        assert forall|node: Seq<char>| #[trigger] d.device_nodes.contains(node) implies node
            == "/dev/davinci"@ + decimal(n) || node == "/dev/davinci_manager"@ || node
            == "/dev/devmm_svm"@ || node == "/dev/hisi_hdc"@ by {
            let i = choose|i: int| 0 <= i < d.device_nodes.len() && d.device_nodes[i] == node;
            assert(ascend_node(d.device_nodes[i], n));
        }
        assert forall|m: (Seq<char>, Seq<char>)| #[trigger] d.driver_mounts.contains(m) implies m.0
            == "/usr/local/Ascend/driver"@ && m.1 == "/usr/local/Ascend/driver"@ by {
            let i = choose|i: int| 0 <= i < d.driver_mounts.len() && d.driver_mounts[i] == m;
            assert(d.driver_mounts[i].0 == ascend_driver());
        }
        let m = (ascend_driver(), lookup(d.driver_mounts, ascend_driver())->0);
        assert(d.driver_mounts.contains(m));
    }
    if ascend_is_whole(d, n) {
        assert forall|i: int| 0 <= i < d.device_nodes.len() implies ascend_node(
            #[trigger] d.device_nodes[i],
            n,
        ) by {
            assert(d.device_nodes.contains(d.device_nodes[i]));
        }
        assert forall|i: int| 0 <= i < d.driver_mounts.len() implies (
        #[trigger] d.driver_mounts[i]).0 == ascend_driver() && d.driver_mounts[i].1
            == d.driver_mounts[i].0 by {
            assert(d.driver_mounts.contains(d.driver_mounts[i]));
        }
        assert(d.driver_mounts[0].0 == ascend_driver());
        assert(lookup(d.driver_mounts, ascend_driver()) is Some);
    }
}

/// Every node of every Ascend device that was allocated is handed to the container, the driver of
/// the host is mounted there and cannot be written, and the number of each device is listed for
/// the workload.
#[verifier::rlimit(40)]
#[verifier::spinoff_prover]
pub proof fn law_cann_devices_reach_the_workload(
    devices: Seq<DeviceView>,
    numbers: Seq<nat>,
    inventory: InventoryView,
)
    requires
        devices.len() > 0,
        numbers.len() == devices.len(),
        forall|i: int|
            0 <= i < devices.len() ==> (#[trigger] devices[i]).id == "ascend-"@ + decimal(
                numbers[i],
            ) && numbers[i] <= u32::MAX,
    ensures
        configuration(Adapter::Cann, devices, inventory) is Ok <==> forall|i: int|
            0 <= i < devices.len() ==> ascend_is_whole(#[trigger] devices[i], numbers[i]),
        configuration(Adapter::Cann, devices, inventory) matches Ok(l) ==> {
            &&& l.devices == devices
            &&& l.args.len() > 0
            &&& hands_over_nodes(l.args.drop_last(), devices)
            &&& l.args.last()
                == "--mount=type=bind,src=/usr/local/Ascend/driver,dst=/usr/local/Ascend/driver,readonly"@
            &&& l.env.len() == 1
            &&& l.env[0].0 == "ASCEND_RT_VISIBLE_DEVICES"@
            &&& pieces(l.env[0].1, ',') == Seq::new(devices.len(), |i: int| decimal(numbers[i]))
        },
{
    let check = |d: DeviceView| cann_check(d);
    lemma_no_fault(devices, check);
    assert forall|i: int| 0 <= i < devices.len() implies (check(#[trigger] devices[i]) is Ok
        <==> ascend_is_whole(devices[i], numbers[i])) by {
        lemma_ascend(devices[i], numbers[i]);
    }
    assert forall|i: int| 0 <= i < devices.len() implies ascend_number((#[trigger] devices[i]).id)
        == Ok::<nat, Seq<Seq<char>>>(numbers[i]) by {
        lemma_ascend(devices[i], numbers[i]);
    }
    if forall|i: int| 0 <= i < devices.len() ==> check(#[trigger] devices[i]) is Ok {
        assert forall|i: int| 0 <= i < devices.len() implies ascend_is_whole(
            #[trigger] devices[i],
            numbers[i],
        ) by {
            assert(check(devices[i]) is Ok);
        }
    }
    if forall|i: int|
        0 <= i < devices.len() ==> ascend_is_whole(#[trigger] devices[i], numbers[i]) {
        assert forall|i: int| 0 <= i < devices.len() implies check(#[trigger] devices[i]) is Ok by {
            assert(ascend_is_whole(devices[i], numbers[i]));
        }
    }
    if let Ok(l) = configuration(Adapter::Cann, devices, inventory) {
        lemma_number_list(devices, numbers);
        let driver = "/usr/local/Ascend/driver"@;
        let mounts = put_all(no_env(), all_mounts(devices));
        lemma_hands_over_nodes(devices);
        lemma_one_mount(devices, driver);
        assert(mounts =~= seq![(driver, driver)]);
        let nodes = prefixed("--device="@, node_set(devices));
        assert(l.args =~= nodes.push(mount_arg(driver, driver)));
        assert(l.args.drop_last() =~= nodes);
        lemma_driver_mount();
    }
}

/// The numbers of the devices are listed one by one.
proof fn lemma_number_list(devices: Seq<DeviceView>, numbers: Seq<nat>)
    requires
        devices.len() > 0,
        numbers.len() == devices.len(),
        forall|i: int|
            0 <= i < devices.len() ==> ascend_number((#[trigger] devices[i]).id) == Ok::<
                nat,
                Seq<Seq<char>>,
            >(numbers[i]),
    ensures
        pieces(
            joined(
                devices.map_values(|d: DeviceView| decimal(ascend_number(d.id)->Ok_0)),
                ","@,
            ),
            ',',
        ) == Seq::new(devices.len(), |i: int| decimal(numbers[i])),
{
    let shown = devices.map_values(|d: DeviceView| decimal(ascend_number(d.id)->Ok_0));
    assert forall|i: int| 0 <= i < shown.len() implies #[trigger] shown[i] == decimal(
        numbers[i],
    ) by {
        assert(ascend_number(devices[i].id) == Ok::<nat, Seq<Seq<char>>>(numbers[i]));
    }
    assert forall|i: int| 0 <= i < shown.len() implies !(#[trigger] shown[i]).contains(',') by {
        lemma_no_comma(numbers[i]);
    }
    lemma_comma_list(shown);
    assert(shown =~= Seq::new(devices.len(), |i: int| decimal(numbers[i])));
}

/// The driver of the host is mounted under its own path and cannot be written.
#[verifier::rlimit(50)]
#[verifier::spinoff_prover]
proof fn lemma_driver_mount()
    ensures
        mount_arg("/usr/local/Ascend/driver"@, "/usr/local/Ascend/driver"@)
            == "--mount=type=bind,src=/usr/local/Ascend/driver,dst=/usr/local/Ascend/driver,readonly"@,
{
    reveal_strlit("/usr/local/Ascend/driver");
    reveal_strlit("--mount=type=bind,src=");
    reveal_strlit(",dst=");
    reveal_strlit(",readonly");
    reveal_strlit(
        "--mount=type=bind,src=/usr/local/Ascend/driver,dst=/usr/local/Ascend/driver,readonly",
    );
    assert(mount_arg("/usr/local/Ascend/driver"@, "/usr/local/Ascend/driver"@)
        =~= "--mount=type=bind,src=/usr/local/Ascend/driver,dst=/usr/local/Ascend/driver,readonly"@);
}

/// Devices that all mount one path mount it once.
proof fn lemma_one_mount(devices: Seq<DeviceView>, driver: Seq<char>)
    requires
        devices.len() > 0,
        forall|i: int|
            0 <= i < devices.len() ==> (#[trigger] devices[i]).driver_mounts.len() > 0 && forall|m: (
                Seq<char>,
                Seq<char>,
            )| #[trigger]
                devices[i].driver_mounts.contains(m) ==> m == (driver, driver),
    ensures
        put_all(no_env(), all_mounts(devices)) == seq![(driver, driver)],
{
    let all = all_mounts(devices);
    assert forall|i: int| 0 <= i < all.len() implies #[trigger] all[i] == (driver, driver) by {
        assert(all.contains(all[i]));
        lemma_mount_owner(devices, all[i]);
        let k = choose|k: int|
            0 <= k < devices.len() && (#[trigger] devices[k]).driver_mounts.contains(all[i]);
        assert(devices[k].driver_mounts.contains(all[i]));
    }
    assert(all.len() > 0) by {
        assert(devices[devices.len() - 1].driver_mounts.len() > 0);
    }
    lemma_same_entry(all, driver);
}

proof fn lemma_same_entry(s: Seq<(Seq<char>, Seq<char>)>, k: Seq<char>)
    requires
        forall|i: int| 0 <= i < s.len() ==> #[trigger] s[i] == (k, k),
    ensures
        put_all(no_env(), s) == if s.len() == 0 {
            no_env()
        } else {
            seq![(k, k)]
        },
    decreases s.len(),
{
    if s.len() > 0 {
        let t = s.drop_last();
        assert forall|i: int| 0 <= i < t.len() implies #[trigger] t[i] == (k, k) by {
            assert(t[i] == s[i]);
        }
        lemma_same_entry(t, k);
        assert(s[s.len() - 1] == (k, k));
        assert(seq![(k, k)].drop_last() =~= Seq::empty());
        assert(put_all(no_env(), s) =~= seq![(k, k)]);
    }
}

/// Every backend has one name, and every name that is none of these is unknown.
#[verifier::rlimit(50)]
#[verifier::spinoff_prover]
pub proof fn law_backends_have_names(id: Seq<char>, a: Adapter)
    ensures
        adapter_of(backend_id(a)) == Some(a),
        adapter_of(id) matches Some(b) ==> backend_id(b) == id,
        backend_id(Adapter::Cpu) == "cpu"@ && backend_id(Adapter::Cuda) == "cuda"@ && backend_id(
            Adapter::Rocm,
        ) == "rocm"@ && backend_id(Adapter::Tpu) == "tpu"@ && backend_id(Adapter::Metal)
            == "metal"@ && backend_id(Adapter::Cann) == "cann"@ && backend_id(Adapter::Oneapi)
            == "oneapi"@,
{
    reveal_strlit("cpu");
    reveal_strlit("cuda");
    reveal_strlit("rocm");
    reveal_strlit("tpu");
    reveal_strlit("metal");
    reveal_strlit("cann");
    reveal_strlit("oneapi");
    assert("cpu"@.len() != "cuda"@.len());
    assert("cpu"@.len() != "rocm"@.len());
    assert("cpu"@[0] != "tpu"@[0]);
    assert("cpu"@.len() != "metal"@.len());
    assert("cpu"@.len() != "cann"@.len());
    assert("cpu"@.len() != "oneapi"@.len());
    assert("cuda"@[0] != "rocm"@[0]);
    assert("cuda"@.len() != "tpu"@.len());
    assert("cuda"@.len() != "metal"@.len());
    assert("cuda"@[1] != "cann"@[1]);
    assert("cuda"@.len() != "oneapi"@.len());
    assert("rocm"@.len() != "tpu"@.len());
    assert("rocm"@.len() != "metal"@.len());
    assert("rocm"@[0] != "cann"@[0]);
    assert("rocm"@.len() != "oneapi"@.len());
    assert("tpu"@.len() != "metal"@.len());
    assert("tpu"@.len() != "cann"@.len());
    assert("tpu"@.len() != "oneapi"@.len());
    assert("metal"@.len() != "cann"@.len());
    assert("metal"@.len() != "oneapi"@.len());
    assert("cann"@.len() != "oneapi"@.len());
}

/// A device is told with all that a probe reported of it, each under its own name.
#[verifier::rlimit(50)]
#[verifier::spinoff_prover]
pub proof fn law_devices_are_told(d: DeviceView)
    ensures
        member_of(device_json(d), "id"@) == JsonView::Text(d.id),
        member_of(device_json(d), "index"@) == JsonView::Number(decimal(d.index as nat)),
        member_of(device_json(d), "architecture"@) == JsonView::Text(d.architecture),
        member_of(device_json(d), "memory_mib"@) == JsonView::Number(decimal(d.memory_mib as nat)),
        member_of(device_json(d), "driver_version"@) == JsonView::Text(d.driver_version),
        member_of(device_json(d), "runtime_version"@) == JsonView::Text(d.runtime_version),
        member_of(device_json(d), "topology"@) == text_object(d.topology),
        member_of(device_json(d), "device_nodes"@) == text_list(d.device_nodes),
        member_of(device_json(d), "driver_mounts"@) == text_object(d.driver_mounts),
        device_json(d)->Object_0.len() == 9,
{
    broadcast use lemma_lookup_push;

    reveal_strlit("id");
    reveal_strlit("index");
    reveal_strlit("architecture");
    reveal_strlit("memory_mib");
    reveal_strlit("driver_version");
    reveal_strlit("runtime_version");
    reveal_strlit("topology");
    reveal_strlit("device_nodes");
    reveal_strlit("driver_mounts");
    assert("id"@.len() == 2);
    assert("index"@.len() == 5);
    assert("architecture"@.len() == 12 && "architecture"@[0] == 'a');
    assert("memory_mib"@.len() == 10);
    assert("driver_version"@.len() == 14);
    assert("runtime_version"@.len() == 15);
    assert("topology"@.len() == 8);
    assert("device_nodes"@.len() == 12 && "device_nodes"@[0] == 'd');
    assert("driver_mounts"@.len() == 13);
    let all = Seq::<(Seq<char>, JsonView)>::empty()
        .push(("id"@, JsonView::Text(d.id)))
        .push(("index"@, whole(d.index as nat)))
        .push(("architecture"@, JsonView::Text(d.architecture)))
        .push(("memory_mib"@, whole(d.memory_mib as nat)))
        .push(("driver_version"@, JsonView::Text(d.driver_version)))
        .push(("runtime_version"@, JsonView::Text(d.runtime_version)))
        .push(("topology"@, text_object(d.topology)))
        .push(("device_nodes"@, text_list(d.device_nodes)))
        .push(("driver_mounts"@, text_object(d.driver_mounts)));
    assert(device_json(d)->Object_0 =~= all);
    assert(device_json(d) == JsonView::Object(all));
}

/// What a workload is launched with is told: its arguments, its variables and every device.
pub proof fn law_launches_are_told(l: LaunchView)
    ensures
        member_of(launch_json(l), "args"@) == text_list(l.args),
        member_of(launch_json(l), "env"@) == text_object(l.env),
        member_of(launch_json(l), "devices"@) == JsonView::Array(Seq::new(l.devices.len(), |i: int| device_json(l.devices[i]))),
        launch_json(l)->Object_0.len() == 3,
{
    broadcast use lemma_lookup_push;

    reveal_strlit("args");
    reveal_strlit("env");
    reveal_strlit("devices");
    assert("args"@.len() == 4);
    assert("env"@.len() == 3);
    assert("devices"@.len() == 7);
    let all = Seq::<(Seq<char>, JsonView)>::empty()
        .push(("args"@, text_list(l.args)))
        .push(("env"@, text_object(l.env)))
        .push(("devices"@, devices_json(l.devices)));
    assert(launch_json(l)->Object_0 =~= all);
    assert(launch_json(l) == JsonView::Object(all));
    assert(devices_json(l.devices)->Array_0 =~= Seq::new(
        l.devices.len(),
        |i: int| device_json(l.devices[i]),
    ));
}

/// An inventory is told with its backend and every device.
pub proof fn law_inventories_are_told(inventory: InventoryView)
    ensures
        member_of(inventory_json(inventory), "version"@) == JsonView::Number(decimal(inventory.version as nat)),
        member_of(inventory_json(inventory), "backend"@) == JsonView::Text(inventory.backend),
        member_of(inventory_json(inventory), "devices"@) == JsonView::Array(Seq::new(inventory.devices.len(), |i: int| device_json(inventory.devices[i]))),
        inventory_json(inventory)->Object_0.len() == 3,
{
    broadcast use lemma_lookup_push;

    reveal_strlit("version");
    reveal_strlit("backend");
    reveal_strlit("devices");
    assert("version"@.len() == 7 && "version"@[0] == 'v');
    assert("backend"@.len() == 7 && "backend"@[0] == 'b');
    assert("devices"@.len() == 7 && "devices"@[0] == 'd');
    let all = Seq::<(Seq<char>, JsonView)>::empty()
        .push(("version"@, whole(inventory.version as nat)))
        .push(("backend"@, JsonView::Text(inventory.backend)))
        .push(("devices"@, devices_json(inventory.devices)));
    assert(inventory_json(inventory)->Object_0 =~= all);
    assert(inventory_json(inventory) == JsonView::Object(all));
    assert(devices_json(inventory.devices)->Array_0 =~= Seq::new(
        inventory.devices.len(),
        |i: int| device_json(inventory.devices[i]),
    ));
}

/// Whether what a probe reports of a device can be taken at its word.
pub open spec fn is_sound_device(d: DeviceView) -> bool {
    &&& d.id.len() > 0
    &&& forall|i: int|
        0 <= i < d.id.len() ==> {
            let c = #[trigger] d.id[i];
            'a' <= c <= 'z' || 'A' <= c <= 'Z' || '0' <= c <= '9' || c == '_' || c == '.' || c == ':'
                || c == '-'
        }
    &&& d.memory_mib > 0
    &&& d.architecture.len() > 0
    &&& d.runtime_version.len() > 0
    &&& driver_version_of(d.driver_version) is Ok
    &&& forall|i: int|
        0 <= i < d.device_nodes.len() ==> {
            let n = #[trigger] d.device_nodes[i];
            n.len() >= 5 && n.take(5) == "/dev/"@ && !n.contains(',') && !n.contains(':')
                && !n.contains('\n') && !parts(n).contains(Part::Parent)
        }
    &&& forall|i: int|
        0 <= i < d.driver_mounts.len() ==> {
            let m = #[trigger] d.driver_mounts[i];
            m.0.len() > 0 && m.0[0] == '/' && m.1.len() > 0 && m.1[0] == '/' && !m.0.contains(',')
                && !m.0.contains(':') && !m.1.contains(',') && !m.1.contains(':')
        }
}

proof fn lemma_sound_device(devices: Seq<DeviceView>, i: int)
    requires
        0 <= i < devices.len(),
    ensures
        device_check(devices, i) is Ok <==> is_sound_device(devices[i]) && forall|j: int|
            0 <= j < i ==> (#[trigger] devices[j]).id != devices[i].id && devices[j].index
                != devices[i].index,
{
    let d = devices[i];
    let check_node = |n: Seq<char>| node_check(n);
    let check_mount = |e: (Seq<char>, Seq<char>)| mount_check(e);
    lemma_no_fault(d.device_nodes, check_node);
    lemma_no_fault(d.driver_mounts, check_mount);
    reveal_strlit("/dev/");
    assert forall|k: int| 0 <= k < d.device_nodes.len() implies (check_node(
        #[trigger] d.device_nodes[k],
    ) is Ok <==> ({
        let n = d.device_nodes[k];
        n.len() >= 5 && n.take(5) == "/dev/"@ && !n.contains(',') && !n.contains(':')
            && !n.contains('\n') && !parts(n).contains(Part::Parent)
    })) by {
        let n = d.device_nodes[k];
        if n.len() >= 5 {
            assert(n.subrange(0, 5) =~= n.take(5));
        }
    }
    assert forall|k: int| 0 <= k < d.driver_mounts.len() implies (check_mount(
        #[trigger] d.driver_mounts[k],
    ) is Ok <==> ({
        let m = d.driver_mounts[k];
        m.0.len() > 0 && m.0[0] == '/' && m.1.len() > 0 && m.1[0] == '/' && !m.0.contains(',')
            && !m.0.contains(':') && !m.1.contains(',') && !m.1.contains(':')
    })) by {}
    if device_id(d.id) {
        assert forall|k: int| 0 <= k < d.id.len() implies ({
            let c = #[trigger] d.id[k];
            'a' <= c <= 'z' || 'A' <= c <= 'Z' || '0' <= c <= '9' || c == '_' || c == '.' || c == ':'
                || c == '-'
        }) by {
            assert(id_char(d.id[k]));
        }
    }
    if device_check(devices, i) is Ok {
        assert forall|k: int| 0 <= k < d.device_nodes.len() implies ({
            let n = #[trigger] d.device_nodes[k];
            n.len() >= 5 && n.take(5) == "/dev/"@ && !n.contains(',') && !n.contains(':')
                && !n.contains('\n') && !parts(n).contains(Part::Parent)
        }) by {
            assert(check_node(d.device_nodes[k]) is Ok);
        }
        assert forall|k: int| 0 <= k < d.driver_mounts.len() implies ({
            let m = #[trigger] d.driver_mounts[k];
            m.0.len() > 0 && m.0[0] == '/' && m.1.len() > 0 && m.1[0] == '/' && !m.0.contains(',')
                && !m.0.contains(':') && !m.1.contains(',') && !m.1.contains(':')
        }) by {
            assert(check_mount(d.driver_mounts[k]) is Ok);
        }
        assert(!repeated(devices, i));
    }
}

/// An inventory is accepted exactly where it is of the version and the backend that were asked
/// for, every device in it is sound, and no two of them share an identity or an index.
pub proof fn law_accepted_inventories_are_sound(inventory: InventoryView, backend: Seq<char>)
    ensures
        inventory_check(inventory, backend) is Ok <==> {
            &&& inventory.version == 1
            &&& inventory.backend == backend
            &&& forall|i: int|
                0 <= i < inventory.devices.len() ==> is_sound_device(#[trigger] inventory.devices[i])
            &&& forall|i: int, j: int|
                0 <= j < i < inventory.devices.len() ==> (#[trigger] inventory.devices[j]).id != (
                #[trigger] inventory.devices[i]).id && inventory.devices[j].index
                    != inventory.devices[i].index
        },
{
    let devices = inventory.devices;
    let check = |i: int| device_check(devices, i);
    let all = places(devices.len());
    lemma_no_fault(all, check);
    assert forall|i: int| 0 <= i < devices.len() implies (check(#[trigger] all[i]) is Ok
        <==> is_sound_device(devices[i]) && forall|j: int|
        0 <= j < i ==> (#[trigger] devices[j]).id != devices[i].id && devices[j].index
            != devices[i].index) by {
        lemma_sound_device(devices, i);
    }
    if forall|i: int| 0 <= i < all.len() ==> check(#[trigger] all[i]) is Ok {
        assert forall|i: int| 0 <= i < devices.len() implies is_sound_device(
            #[trigger] devices[i],
        ) by {
            assert(check(all[i]) is Ok);
        }
        assert forall|i: int, j: int| 0 <= j < i < devices.len() implies (#[trigger] devices[j]).id
            != (#[trigger] devices[i]).id && devices[j].index != devices[i].index by {
            assert(check(all[i]) is Ok);
        }
    }
    if (forall|i: int| 0 <= i < devices.len() ==> is_sound_device(#[trigger] devices[i])) && (
    forall|i: int, j: int|
        0 <= j < i < devices.len() ==> (#[trigger] devices[j]).id != (#[trigger] devices[i]).id
            && devices[j].index != devices[i].index) {
        assert forall|i: int| 0 <= i < all.len() implies check(#[trigger] all[i]) is Ok by {
            assert(is_sound_device(devices[i]));
        }
    }
}

/// An allocation begins with the devices that fit, none of them taken yet, and is refused on a
/// node that was taken out of service. Once it holds as many as were asked for, it gives them to
/// the backend of the target; with fewer it fails. The lock of a device is named by its backend
/// and its identity.
pub proof fn law_allocations_begin_with_what_fits(
    requirement: Accelerator,
    inventory: InventoryView,
    lock_root: Seq<char>,
    p: PlanView,
    backend: Seq<char>,
    id: Seq<char>,
)
    ensures
        allocation_start(requirement, inventory, lock_root, true) is Err,
        allocation_start(requirement, inventory, lock_root, false) is Ok <==> adapter_of(
            requirement.id@,
        ) is Some && matching_of(requirement, inventory) is Ok,
        allocation_start(requirement, inventory, lock_root, false) matches Ok(start) ==> {
            &&& matching_of(requirement, inventory) == Ok::<Seq<DeviceView>, Seq<Seq<char>>>(
                start.candidates,
            )
            &&& adapter_of(requirement.id@) == Some(start.adapter)
            &&& start.taken.len() == 0
            &&& start.count == requirement.count
        },
        p.adapter == Adapter::Cpu || acquired(p.candidates, p.taken).len() == p.count
            ==> allocation_of(p, inventory) == configuration(
            p.adapter,
            acquired(p.candidates, p.taken),
            inventory,
        ),
        p.adapter != Adapter::Cpu && acquired(p.candidates, p.taken).len() != p.count
            ==> allocation_of(p, inventory) is Err,
        lock_name_of(backend, id) == fingerprint(encode_utf8(backend + ":"@ + id)),
        lock_root.len() > 0 && lock_root.last() != '/' ==> quarantine_record(lock_root) == lock_root
            + "/quarantine.json"@,
{
    reveal_strlit("quarantine.json");
    reveal_strlit("/quarantine.json");
    if lock_root.len() > 0 && lock_root.last() != '/' {
        assert(quarantine_record(lock_root) =~= lock_root + "/quarantine.json"@);
    }
}

/// What an allocation holds is, in its order, every candidate whose lock it was granted.
#[verifier::rlimit(50)]
#[verifier::spinoff_prover]
pub proof fn law_every_granted_device_is_held(candidates: Seq<DeviceView>, taken: Seq<bool>, i: int)
    requires
        taken.len() <= candidates.len(),
        0 <= i < taken.len(),
    ensures
        taken[i] ==> acquired(candidates, taken).contains(candidates[i]),
        acquired(candidates, taken) == acquired(candidates, taken.take(i)) + acquired(
            candidates.skip(i),
            taken.skip(i),
        ),
        acquired(candidates, taken).len() <= taken.len(),
        taken[i] ==> acquired(candidates.skip(i), taken.skip(i))[0] == candidates[i],
    decreases taken.len(),
{
    let t = taken.drop_last();
    let last = taken.len() - 1;
    let got = acquired(candidates, taken);
    let front = acquired(candidates, t);
    let rest = candidates.skip(i);
    let asked = taken.skip(i);
    lemma_acquired_len(candidates, taken);
    assert(asked.drop_last() =~= t.skip(i));
    assert(asked.last() == taken[last]);
    assert(rest[asked.len() - 1] == candidates[last]);
    if i < last {
        law_every_granted_device_is_held(candidates, t, i);
        assert(t.take(i) =~= taken.take(i));
        let tail = acquired(rest, t.skip(i));
        if taken[last] {
            assert(got =~= acquired(candidates, taken.take(i)) + tail.push(candidates[last]));
        }
        if taken[i] {
            assert(tail.len() > 0) by {
                lemma_acquired_some(rest, t.skip(i));
            }
            let k = choose|k: int| 0 <= k < front.len() && front[k] == candidates[i];
            assert(got[k] == candidates[i]);
        }
    } else {
        assert(taken.take(i) =~= t);
        assert(t.skip(i) =~= Seq::empty());
        assert(acquired(rest, t.skip(i)) =~= Seq::empty());
        if taken[last] {
            assert(got[front.len() as int] == candidates[i]);
            assert(got =~= front + seq![candidates[i]]);
            assert(acquired(rest, asked) =~= seq![candidates[i]]);
        } else {
            assert(acquired(rest, asked) =~= Seq::empty());
            assert(got =~= front + Seq::empty());
        }
    }
}

proof fn lemma_acquired_len(candidates: Seq<DeviceView>, taken: Seq<bool>)
    ensures
        acquired(candidates, taken).len() <= taken.len(),
    decreases taken.len(),
{
    if taken.len() > 0 {
        lemma_acquired_len(candidates, taken.drop_last());
    }
}

proof fn lemma_acquired_some(candidates: Seq<DeviceView>, taken: Seq<bool>)
    requires
        taken.len() > 0,
        taken[0],
    ensures
        acquired(candidates, taken).len() > 0,
    decreases taken.len(),
{
    if taken.len() > 1 {
        lemma_acquired_some(candidates, taken.drop_last());
    }
}

// --------------------------------------------- what the operations give

/// Matching gives a target exactly the devices of the inventory that have what it asks for.
pub proof fn law_matching_gives_what_is_wanted(
    requirement: &Accelerator,
    inventory: &Inventory,
    r: Result<Vec<Device>, Error>,
    i: int,
)
    requires
        call_ensures(matching, (requirement, inventory), r),
        requirement.id@ == inventory.backend@,
        requirement.id@ != "cpu"@,
        0 <= i < inventory.devices@.len(),
    ensures
        r matches Ok(found) ==> {
            &&& found@.len() >= requirement.count
            &&& is_wanted(*requirement, inventory.devices@[i]@) <==> exists|k: int|
                0 <= k < found@.len() && (#[trigger] found@[k])@ == inventory.devices@[i]@
        },
        requirement.count <= 1 && is_wanted(*requirement, inventory.devices@[i]@)
            && requirement.driver_range is Some && parsed_range(requirement.driver_range->0@) is Ok
            ==> r is Ok,
{
    law_wanted_devices_are_found(*requirement, inventory@);
    let all = inventory@.devices;
    let d = all[i];
    assert(d == inventory.devices@[i]@);
    assert(all.contains(d));
    lemma_wanted_fits(*requirement, d);
    let want = |e: DeviceView| is_wanted(*requirement, e);
    lemma_filter_members(all, want);
    if want(d) {
        assert(all.filter(want).contains(d));
    }
    if let Ok(found) = r {
        let v = devices_view(found@);
        law_matching_devices_fit(*requirement, inventory@);
        if v.contains(d) {
            let k = choose|k: int| 0 <= k < v.len() && v[k] == d;
            assert(found@[k]@ == d);
        }
        if exists|k: int| 0 <= k < found@.len() && (#[trigger] found@[k])@ == d {
            let k = choose|k: int| 0 <= k < found@.len() && (#[trigger] found@[k])@ == d;
            assert(v[k] == d);
        }
    }
}

/// What is handed to the workload shows every CUDA device that was allocated.
pub proof fn law_configured_cuda_devices_are_shown(
    devices: &[Device],
    inventory: &Inventory,
    r: Result<Launch, Error>,
)
    requires
        call_ensures(Adapter::configure, (&Adapter::Cuda, devices, inventory), r),
        devices@.len() > 0,
        forall|i: int| 0 <= i < devices@.len() ==> !(#[trigger] devices@[i]).id@.contains(','),
    ensures
        r matches Ok(l) ==> {
            &&& l.devices@.len() == devices@.len()
            &&& l.args@.len() == devices@.len()
            &&& forall|i: int|
                0 <= i < devices@.len() ==> (#[trigger] l.args@[i])@ == "--device=nvidia.com/gpu="@
                    + devices@[i].id@
            &&& l.env@.len() == 1 && l.env@[0].0 == "CUDA_VISIBLE_DEVICES"@
            &&& pieces(l.env@[0].1, ',') == Seq::new(devices@.len(), |i: int| devices@[i].id@)
        },
{
    let all = devices_view(devices@);
    assert forall|i: int| 0 <= i < all.len() implies !(#[trigger] all[i]).id.contains(',') by {
        assert(all[i] == devices@[i]@);
    }
    law_cuda_devices_reach_the_workload(all, inventory@);
    if let Ok(l) = r {
        let v = l@;
        assert forall|i: int| 0 <= i < devices@.len() implies (#[trigger] l.args@[i])@
            == "--device=nvidia.com/gpu="@ + devices@[i].id@ by {
            assert(v.args[i] == l.args@[i]@);
            assert(all[i] == devices@[i]@);
        }
        assert(v.args.len() == l.args@.len());
        assert(v.devices.len() == l.devices@.len());
        assert(Seq::new(all.len(), |i: int| all[i].id) =~= Seq::new(
            devices@.len(),
            |i: int| devices@[i].id@,
        ));
    }
}

/// A backend is found under its name; a node without an accelerator is known, on any other the
/// probe of the target is asked, and what it reports is taken where it is sound. Locks lie where
/// they were chosen to, or in a directory of the user's own.
pub proof fn law_probes_and_locks(
    id: &str,
    found: Result<Adapter, Error>,
    a: &Adapter,
    target: &Target,
    probe: Result<Probe, Error>,
    chosen: Option<String>,
    temporary: &str,
    uid: u32,
    root: String,
    reason: &str,
    record: Json,
)
    requires
        call_ensures(adapter, (id,), found),
        call_ensures(Adapter::probe, (a, target), probe),
        call_ensures(lock_root, (chosen, temporary, uid), root),
        call_ensures(quarantine, (reason,), record),
        temporary@.len() > 0,
        temporary@.last() != '/',
    ensures
        found matches Ok(b) ==> backend_id(b) == id@,
        *a == Adapter::Cpu ==> (probe matches Ok(Probe::Known(i)) && i.devices@.len() == 0
            && i.backend@ == "cpu"@ && i.version == 1),
        *a != Adapter::Cpu && target.probe is Some ==> (probe matches Ok(Probe::Run(program))
            && program@ == target.probe->0@),
        *a != Adapter::Cpu && target.probe is None ==> probe is Err,
        chosen matches Some(path) ==> root@ == path@,
        chosen is None ==> root@ == temporary@ + "/nix-compute-devices-"@ + decimal(uid as nat),
        member_of(record@, "reason"@) == JsonView::Text(reason@),
{
    broadcast use lemma_lookup_push;

    reveal_strlit("nix-compute-devices-");
    reveal_strlit("/nix-compute-devices-");
    if probe matches Ok(Probe::Known(i)) {
        assert(probe->Ok_0->Known_0@.devices.len() == probe->Ok_0->Known_0.devices@.len());
    }
    if chosen is None {
        assert(root@ =~= temporary@ + "/nix-compute-devices-"@ + decimal(uid as nat));
    }
    let m = record@->Object_0;
    assert(m =~= Seq::<(Seq<char>, JsonView)>::empty().push(("reason"@, JsonView::Text(reason@))));
}

/// The next lock that an allocation asks for is the one of the first candidate that it has not
/// asked for yet, by its backend and its identity. At its end it launches what it holds.
pub proof fn law_locks_are_asked_for_in_order(
    plan: &AllocationPlan,
    lock: Option<String>,
    inventory: &Inventory,
    r: Result<Launch, Error>,
)
    requires
        call_ensures(AllocationPlan::next_lock, (plan,), lock),
        call_ensures(AllocationPlan::finish, (plan, inventory), r),
    ensures
        lock matches Some(name) ==> plan@.taken.len() < plan@.candidates.len() && name@
            == fingerprint(
            encode_utf8(
                backend_id(plan@.adapter) + ":"@ + plan@.candidates[plan@.taken.len() as int].id,
            ),
        ),
        lock is None && plan@.taken.len() < plan@.candidates.len() ==> acquired(
            plan@.candidates,
            plan@.taken,
        ).len() == plan@.count,
        r is Ok && plan@.adapter != Adapter::Cpu ==> acquired(plan@.candidates, plan@.taken).len()
            == plan@.count,
        r matches Ok(l) ==> configuration(
            plan@.adapter,
            acquired(plan@.candidates, plan@.taken),
            inventory@,
        ) == Ok::<LaunchView, Seq<Seq<char>>>(l@),
{
}

/// What came of asking for a lock is kept, behind what came of those before.
pub proof fn law_granted_locks_are_kept(plan: &mut AllocationPlan, got: bool)
    requires
        call_ensures(AllocationPlan::record, (plan, got), ()),
    ensures
        final(plan)@.taken == old(plan)@.taken.push(got),
        final(plan)@.candidates == old(plan)@.candidates,
        final(plan)@.adapter == old(plan)@.adapter,
        final(plan)@.count == old(plan)@.count,
{
}

/// An allocation begins with what matching found for the target, and an inventory is taken as it
/// was reported where it is sound.
pub proof fn law_allocations_begin_as_matched(
    target: &Target,
    inventory: &Inventory,
    lock_root: &str,
    quarantined: bool,
    plan: Result<AllocationPlan, Error>,
    reported: Inventory,
    backend: &str,
    taken: Result<Inventory, Error>,
)
    requires
        call_ensures(allocate, (target, inventory, lock_root, quarantined), plan),
        call_ensures(parse_inventory, (reported, backend), taken),
    ensures
        quarantined ==> plan is Err,
        plan matches Ok(p) ==> matching_of(target.summary.accelerator, inventory@) == Ok::<
            Seq<DeviceView>,
            Seq<Seq<char>>,
        >(p@.candidates) && p@.taken.len() == 0 && p@.count == target.summary.accelerator.count
            && backend_id(p@.adapter) == target.summary.accelerator.id@,
        taken matches Ok(i) ==> i == reported,
        taken is Ok <==> inventory_check(reported@, backend@) is Ok,
{
    law_allocations_begin_with_what_fits(
        target.summary.accelerator,
        inventory@,
        lock_root@,
        PlanView { adapter: Adapter::Cpu, candidates: Seq::empty(), taken: Seq::empty(), count: 0 },
        Seq::empty(),
        Seq::empty(),
    );
    law_backends_have_names(target.summary.accelerator.id@, Adapter::Cpu);
}

} // verus!
