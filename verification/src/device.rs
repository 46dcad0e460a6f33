//! Choosing the phone to work with, from what the ADB server lists, and
//! reading what a shell command on it answered.
//!
//! Talking to the ADB server happens around these functions; they decide
//! which device is used, how it is shown, and which error tells the user what
//! to do about it.

use vstd::prelude::*;
use crate::text::{decimal, decimal_text, lossy, lowercase, lowercased, trim, trimmed, utf8_lossy};

verus! {

/// One attached device, as the device picker shows it.
#[derive(Debug, Clone)]
pub struct Device {
    pub serial: String,
    /// Human-readable model, for the picker. Falls back to the serial.
    pub model: String,
    pub state: String,
    /// True only for a device in the `device` state; `unauthorized` and
    /// `offline` are listed so the UI can explain what to do rather than
    /// reporting nothing found.
    pub usable: bool,
}

#[derive(Debug)]
pub enum AdbError {
    /// The ADB server could not be reached or started.
    Server(String),
    NoDevices,
    /// Attached but the user has not accepted the debugging prompt.
    Unauthorized(String),
    Device(String),
}

/// An `AdbError` with its texts as character sequences.
pub enum AdbErrorView {
    Server(Seq<char>),
    NoDevices,
    Unauthorized(Seq<char>),
    Device(Seq<char>),
}

impl AdbError {
    pub open spec fn view(&self) -> AdbErrorView {
        match self {
            AdbError::Server(e) => AdbErrorView::Server(e@),
            AdbError::NoDevices => AdbErrorView::NoDevices,
            AdbError::Unauthorized(s) => AdbErrorView::Unauthorized(s@),
            AdbError::Device(e) => AdbErrorView::Device(e@),
        }
    }

    /// The text shown to the user.
    pub fn message(&self) -> (m: String)
        ensures
            m@ == match self {
                AdbError::Server(e) => "Cannot talk to the ADB server: "@ + e@,
                AdbError::NoDevices => "No Android device detected. Connect your phone over USB and enable USB Debugging."@,
                AdbError::Unauthorized(s) => "Device "@ + s@
                    + " has not authorised this computer. Check the confirmation dialog on the phone."@,
                AdbError::Device(e) => e@,
            },
    {
        match self {
            AdbError::Server(e) => String::from_str("Cannot talk to the ADB server: ").concat(e.as_str()),
            AdbError::NoDevices => String::from_str(
                "No Android device detected. Connect your phone over USB and enable USB Debugging.",
            ),
            AdbError::Unauthorized(s) => String::from_str("Device ").concat(s.as_str()).concat(
                " has not authorised this computer. Check the confirmation dialog on the phone.",
            ),
            AdbError::Device(e) => e.clone(),
        }
    }
}

/// Underscores shown as spaces: ADB reports models as e.g. "SM_S928B", which
/// reads badly in a picker.
pub open spec fn spaced(s: Seq<char>) -> Seq<char> {
    s.map_values(|c: char| if c == '_' { ' ' } else { c })
}

fn spaced_text(s: &str) -> (r: String)
    ensures
        r@ == spaced(s@),
{
    let cs = crate::text::chars_of(s);
    let mut out = String::new();
    let mut i: usize = 0;
    while i < cs.len()
        invariant
            cs@ == s@,
            i <= cs@.len(),
            out@ == spaced(s@).take(i as int),
        decreases cs@.len() - i,
    {
        if cs[i] == '_' {
            out.append(" ");
        } else {
            out.append(s.substring_char(i, i + 1));
        }
        proof {
            reveal_strlit(" ");
            assert(out@ =~= spaced(s@).take(i + 1));
        }
        i += 1;
    }
    proof {
        assert(spaced(s@).take(cs@.len() as int) =~= spaced(s@));
    }
    out
}

/// A device as the picker shows it, from what the ADB server reports: its
/// serial, its model (possibly empty), its state as text, and whether that
/// state is the ready one.
pub fn device_from(serial: String, model: String, state: String, ready: bool) -> (d: Device)
    ensures
        d.serial@ == serial@,
        d.model@ == if model@.len() == 0 {
            serial@
        } else {
            spaced(model@)
        },
        d.state@ == lowercased(state@),
        d.usable == ready,
{
    let shown = if model.as_str().is_empty() {
        serial.clone()
    } else {
        spaced_text(model.as_str())
    };
    Device { usable: ready, state: lowercase(state.as_str()), serial, model: shown }
}

/// The first position from `i` on where `p` holds, or -1.
pub open spec fn first_from(ds: Seq<Device>, p: spec_fn(Device) -> bool, i: int) -> int
    decreases ds.len() - i,
{
    if i < 0 || i >= ds.len() {
        -1
    } else if p(ds[i]) {
        i
    } else {
        first_from(ds, p, i + 1)
    }
}

pub open spec fn is_usable() -> spec_fn(Device) -> bool {
    |d: Device| d.usable
}

pub open spec fn is_unauthorized() -> spec_fn(Device) -> bool {
    |d: Device| d.state@ == "unauthorized"@
}

pub open spec fn has_serial(s: Seq<char>) -> spec_fn(Device) -> bool {
    |d: Device| d.serial@ == s
}

/// The device to work with, or the error that tells the user what to do: no
/// device at all; a preferred serial that is gone; the first unauthorised
/// device when none is usable; otherwise the state of the first one.
pub open spec fn chosen(ds: Seq<Device>, preferred: Option<Seq<char>>) -> Result<Seq<char>, AdbErrorView> {
    if ds.len() == 0 {
        Err(AdbErrorView::NoDevices)
    } else if preferred is Some {
        let p = preferred->0;
        if first_from(ds, has_serial(p), 0) >= 0 {
            Ok(p)
        } else {
            Err(AdbErrorView::Device("Device "@ + p + " is no longer connected."@))
        }
    } else if first_from(ds, is_usable(), 0) >= 0 {
        Ok(ds[first_from(ds, is_usable(), 0)].serial@)
    } else if first_from(ds, is_unauthorized(), 0) >= 0 {
        Err(AdbErrorView::Unauthorized(ds[first_from(ds, is_unauthorized(), 0)].serial@))
    } else {
        Err(
            AdbErrorView::Device(
                "Device "@ + ds[0].serial@ + " is "@ + ds[0].state@ + ". Unplug and reconnect it."@,
            ),
        )
    }
}

proof fn lemma_first_found(ds: Seq<Device>, p: spec_fn(Device) -> bool, i: int)
    requires
        0 <= i,
        first_from(ds, p, i) >= 0,
    ensures
        i <= first_from(ds, p, i) < ds.len(),
        p(ds[first_from(ds, p, i)]),
    decreases ds.len() - i,
{
    if i < ds.len() && !p(ds[i]) {
        lemma_first_found(ds, p, i + 1);
    }
}

proof fn lemma_first_is(ds: Seq<Device>, p: spec_fn(Device) -> bool, i: int, from: int)
    requires
        0 <= from <= i < ds.len(),
        p(ds[i]),
        forall|k: int| from <= k < i ==> !p(#[trigger] ds[k]),
    ensures
        first_from(ds, p, from) == i,
    decreases i - from,
{
    if from < i {
        lemma_first_is(ds, p, i, from + 1);
    }
}

proof fn lemma_none_found(ds: Seq<Device>, p: spec_fn(Device) -> bool, from: int)
    requires
        0 <= from,
        forall|k: int| from <= k < ds.len() ==> !p(#[trigger] ds[k]),
    ensures
        first_from(ds, p, from) == -1,
    decreases ds.len() - from,
{
    if from < ds.len() {
        lemma_none_found(ds, p, from + 1);
    }
}

/// A usable phone is always used when none is asked for by serial: the
/// answer is the serial of the first usable device listed, and an error,
/// such as an unauthorised device, only ever comes when none is usable.
pub proof fn law_a_usable_device_is_used(ds: Seq<Device>)
    ensures
        forall|i: int|
            0 <= i < ds.len() && #[trigger] ds[i].usable && (forall|k: int| 0 <= k < i ==> !ds[k].usable)
                ==> chosen(ds, None) == Ok::<Seq<char>, AdbErrorView>(ds[i].serial@),
        chosen(ds, None) is Err ==> forall|k: int| 0 <= k < ds.len() ==> !(#[trigger] ds[k].usable),
{
    assert forall|i: int|
        0 <= i < ds.len() && #[trigger] ds[i].usable && (forall|k: int| 0 <= k < i ==> !ds[k].usable)
            implies chosen(ds, None) == Ok::<Seq<char>, AdbErrorView>(ds[i].serial@) by {
        assert forall|k: int| 0 <= k < i implies !is_usable()(#[trigger] ds[k]) by {}
        lemma_first_is(ds, is_usable(), i, 0);
    }
    assert forall|k: int| 0 <= k < ds.len() && chosen(ds, None) is Err implies !(#[trigger] ds[k].usable) by {
        if ds[k].usable {
            lemma_none_found_means_absent(ds, is_usable(), 0, k);
        }
    }
}

/// Why no phone is used when none is usable: with none listed at all, there
/// are no devices; otherwise the first device still waiting for the user to
/// authorise this computer is named; failing that, the state of the first
/// device is reported.
pub proof fn law_why_no_device_is_used(ds: Seq<Device>, preferred: Option<Seq<char>>)
    ensures
        ds.len() == 0 ==> chosen(ds, preferred) == Err::<Seq<char>, AdbErrorView>(AdbErrorView::NoDevices),
        forall|i: int|
            0 <= i < ds.len() && (forall|k: int| 0 <= k < ds.len() ==> !(#[trigger] ds[k].usable))
                && #[trigger] ds[i].state@ == "unauthorized"@ && (forall|k: int|
                0 <= k < i ==> ds[k].state@ != "unauthorized"@) ==> chosen(ds, None) == Err::<
                Seq<char>,
                AdbErrorView,
            >(AdbErrorView::Unauthorized(ds[i].serial@)),
        ds.len() > 0 && (forall|k: int|
            0 <= k < ds.len() ==> !(#[trigger] ds[k].usable) && ds[k].state@ != "unauthorized"@)
            ==> chosen(ds, None) == Err::<Seq<char>, AdbErrorView>(
            AdbErrorView::Device(
                "Device "@ + ds[0].serial@ + " is "@ + ds[0].state@ + ". Unplug and reconnect it."@,
            ),
        ),
{
    if forall|k: int| 0 <= k < ds.len() ==> !(#[trigger] ds[k].usable) {
        assert forall|k: int| 0 <= k < ds.len() implies !is_usable()(#[trigger] ds[k]) by {}
        lemma_none_found(ds, is_usable(), 0);
        assert forall|i: int|
            0 <= i < ds.len() && #[trigger] ds[i].state@ == "unauthorized"@ && (forall|k: int|
                0 <= k < i ==> ds[k].state@ != "unauthorized"@) implies chosen(ds, None) == Err::<
                Seq<char>,
                AdbErrorView,
            >(AdbErrorView::Unauthorized(ds[i].serial@)) by {
            assert forall|k: int| 0 <= k < i implies !is_unauthorized()(#[trigger] ds[k]) by {}
            lemma_first_is(ds, is_unauthorized(), i, 0);
        }
    }
    if ds.len() > 0 && (forall|k: int|
        0 <= k < ds.len() ==> !(#[trigger] ds[k].usable) && ds[k].state@ != "unauthorized"@) {
        assert forall|k: int| 0 <= k < ds.len() implies !is_unauthorized()(#[trigger] ds[k]) by {}
        lemma_none_found(ds, is_unauthorized(), 0);
    }
}

/// A serial asked for is used exactly when a listed device has it; otherwise
/// the answer says it is no longer connected.
pub proof fn law_a_preferred_device_is_used_if_listed(ds: Seq<Device>, p: Seq<char>)
    requires
        ds.len() > 0,
    ensures
        (exists|i: int| 0 <= i < ds.len() && #[trigger] ds[i].serial@ == p) ==> chosen(ds, Some(p)) == Ok::<
            Seq<char>,
            AdbErrorView,
        >(p),
        (forall|i: int| 0 <= i < ds.len() ==> #[trigger] ds[i].serial@ != p) ==> chosen(ds, Some(p)) == Err::<
            Seq<char>,
            AdbErrorView,
        >(AdbErrorView::Device("Device "@ + p + " is no longer connected."@)),
{
    if exists|i: int| 0 <= i < ds.len() && #[trigger] ds[i].serial@ == p {
        let i = choose|i: int| 0 <= i < ds.len() && #[trigger] ds[i].serial@ == p;
        if first_from(ds, has_serial(p), 0) < 0 {
            lemma_none_found_means_absent(ds, has_serial(p), 0, i);
        }
    }
    if forall|i: int| 0 <= i < ds.len() ==> #[trigger] ds[i].serial@ != p {
        assert forall|k: int| 0 <= k < ds.len() implies !has_serial(p)(#[trigger] ds[k]) by {}
        lemma_none_found(ds, has_serial(p), 0);
    }
}

proof fn lemma_none_found_means_absent(ds: Seq<Device>, p: spec_fn(Device) -> bool, from: int, i: int)
    requires
        0 <= from <= i < ds.len(),
        p(ds[i]),
    ensures
        first_from(ds, p, from) >= 0,
    decreases i - from,
{
    if from < i && !p(ds[from]) {
        lemma_none_found_means_absent(ds, p, from + 1, i);
    }
}

fn find_serial(ds: &Vec<Device>, s: &str) -> (r: Option<usize>)
    ensures
        match r {
            Some(i) => i as int == first_from(ds@, has_serial(s@), 0),
            None => first_from(ds@, has_serial(s@), 0) == -1,
        },
{
    let want = s.to_string();
    let mut i: usize = 0;
    while i < ds.len()
        invariant
            want@ == s@,
            i <= ds@.len(),
            first_from(ds@, has_serial(s@), 0) == first_from(ds@, has_serial(s@), i as int),
        decreases ds@.len() - i,
    {
        if ds[i].serial == want {
            return Some(i);
        }
        i += 1;
    }
    None
}

fn find_usable(ds: &Vec<Device>) -> (r: Option<usize>)
    ensures
        match r {
            Some(i) => i as int == first_from(ds@, is_usable(), 0),
            None => first_from(ds@, is_usable(), 0) == -1,
        },
{
    let mut i: usize = 0;
    while i < ds.len()
        invariant
            i <= ds@.len(),
            first_from(ds@, is_usable(), 0) == first_from(ds@, is_usable(), i as int),
        decreases ds@.len() - i,
    {
        if ds[i].usable {
            return Some(i);
        }
        i += 1;
    }
    None
}

fn find_unauthorized(ds: &Vec<Device>) -> (r: Option<usize>)
    ensures
        match r {
            Some(i) => i as int == first_from(ds@, is_unauthorized(), 0),
            None => first_from(ds@, is_unauthorized(), 0) == -1,
        },
{
    let want = String::from_str("unauthorized");
    let mut i: usize = 0;
    while i < ds.len()
        invariant
            want@ == "unauthorized"@,
            i <= ds@.len(),
            first_from(ds@, is_unauthorized(), 0) == first_from(ds@, is_unauthorized(), i as int),
        decreases ds@.len() - i,
    {
        if ds[i].state == want {
            return Some(i);
        }
        i += 1;
    }
    None
}

pub open spec fn adb_result_view(r: Result<String, AdbError>) -> Result<Seq<char>, AdbErrorView> {
    match r {
        Ok(s) => Ok(s@),
        Err(e) => Err(e.view()),
    }
}

pub open spec fn opt_str(o: Option<&str>) -> Option<Seq<char>> {
    match o {
        Some(s) => Some(s@),
        None => None,
    }
}

/// Pick the device to work with from those listed.
pub fn resolve_device(devices: &Vec<Device>, preferred: Option<&str>) -> (r: Result<String, AdbError>)
    ensures
        adb_result_view(r) == chosen(devices@, opt_str(preferred)),
{
    if devices.len() == 0 {
        return Err(AdbError::NoDevices);
    }
    if let Some(serial) = preferred {
        return match find_serial(devices, serial) {
            Some(i) => {
                proof {
                    lemma_first_found(devices@, has_serial(serial@), 0);
                }
                Ok(devices[i].serial.clone())
            },
            None => Err(
                AdbError::Device(
                    String::from_str("Device ").concat(serial).concat(" is no longer connected."),
                ),
            ),
        };
    }
    if let Some(i) = find_usable(devices) {
        proof {
            lemma_first_found(devices@, is_usable(), 0);
        }
        return Ok(devices[i].serial.clone());
    }
    match find_unauthorized(devices) {
        Some(i) => {
            proof {
                lemma_first_found(devices@, is_unauthorized(), 0);
            }
            Err(AdbError::Unauthorized(devices[i].serial.clone()))
        },
        None => {
            let d = &devices[0];
            Err(
                AdbError::Device(
                    String::from_str("Device ").concat(d.serial.as_str()).concat(" is ").concat(
                        d.state.as_str(),
                    ).concat(". Unplug and reconnect it."),
                ),
            )
        },
    }
}

/// The model to show for `serial`: that of the first listed device with it,
/// else the serial itself.
pub fn model_for(devices: &Vec<Device>, serial: &str) -> (m: String)
    ensures
        m@ == if first_from(devices@, has_serial(serial@), 0) >= 0 {
            devices@[first_from(devices@, has_serial(serial@), 0)].model@
        } else {
            serial@
        },
{
    match find_serial(devices, serial) {
        Some(i) => {
            proof {
                lemma_first_found(devices@, has_serial(serial@), 0);
            }
            devices[i].model.clone()
        },
        None => serial.to_string(),
    }
}

/// What a shell command answered: its output, unless it exited with a
/// non-zero status, which is reported with its trimmed error output.
pub fn shell_outcome(command: &str, code: Option<u8>, stdout: &[u8], stderr: &[u8]) -> (r: Result<String, AdbError>)
    ensures
        adb_result_view(r) == match code {
            Some(c) if c != 0 => Err(
                AdbErrorView::Device(
                    "adb shell "@ + command@ + " exited "@ + decimal_text(c as nat) + ": "@ + trimmed(
                        utf8_lossy(stderr@),
                    ),
                ),
            ),
            _ => Ok(utf8_lossy(stdout@)),
        },
{
    if let Some(c) = code {
        if c != 0 {
            let err = lossy(stderr);
            let status = decimal(c as u64);
            return Err(
                AdbError::Device(
                    String::from_str("adb shell ").concat(command).concat(" exited ").concat(
                        status.as_str(),
                    ).concat(": ").concat(trim(err.as_str())),
                ),
            );
        }
    }
    Ok(lossy(stdout))
}

} // verus!
