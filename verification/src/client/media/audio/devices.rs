//! Audio devices as they are listed and chosen.

use vstd::prelude::*;

use crate::text;

verus! {

/// A device as the interface above renders it.
#[derive(Debug, Clone, PartialEq, Eq)]
pub struct AudioDevice {
    pub id: String,
    pub name: String,
    pub is_default: bool,
}

/// A device as the host lists it, in one direction. One that will not describe
/// itself has no name.
pub struct Listed {
    pub id: String,
    pub name: Option<String>,
    pub supported: bool,
}

/// Whether a device is shown as it was listed, and as the default exactly if it
/// carries the default's id.
pub open spec fn is_shown(device: AudioDevice, listed: Listed, default: Option<Seq<char>>) -> bool {
    &&& device.id@ == listed.id@
    &&& listed.name matches Some(name) && device.name@ == name@
    &&& device.is_default == (default == Some(listed.id@))
}

/// The devices that work in the direction asked for and describe themselves, in
/// order.
pub open spec fn presentable(listed: Seq<Listed>) -> Seq<Listed>
    decreases listed.len(),
{
    if listed.len() == 0 {
        Seq::empty()
    } else if listed.last().supported && listed.last().name is Some {
        presentable(listed.drop_last()).push(listed.last())
    } else {
        presentable(listed.drop_last())
    }
}

/// The devices that work in the direction asked for and describe themselves.
pub fn describe(listed: &Vec<Listed>, default: Option<&str>) -> (devices: Vec<AudioDevice>)
    ensures
        devices@.len() == presentable(listed@).len(),
        forall|i: int|
            0 <= i < devices@.len() ==> is_shown(
                #[trigger] devices@[i],
                presentable(listed@)[i],
                match default {
                    Some(id) => Some(id@),
                    None => None,
                },
            ),
{
    let mut devices: Vec<AudioDevice> = Vec::new();
    let mut i: usize = 0;
    while i < listed.len()
        invariant
            i <= listed@.len(),
            devices@.len() == presentable(listed@.take(i as int)).len(),
            forall|j: int|
                0 <= j < devices@.len() ==> is_shown(
                    #[trigger] devices@[j],
                    presentable(listed@.take(i as int))[j],
                    match default {
                        Some(id) => Some(id@),
                        None => None,
                    },
                ),
        decreases listed@.len() - i,
    {
        assert(listed@.take(i + 1).drop_last() =~= listed@.take(i as int));
        let device = &listed[i];
        if device.supported {
            if let Some(name) = &device.name {
                let is_default = match default {
                    Some(id) => text::same(id, device.id.as_str()),
                    None => false,
                };
                devices.push(
                    AudioDevice { id: device.id.clone(), name: name.clone(), is_default },
                );
            }
        }
        i += 1;
    }
    assert(listed@.take(i as int) =~= listed@);
    devices
}

/// Which listed device to open: the first that carries the id asked for, if it works
/// in the direction asked for. `None` selects the host's default, so a device that
/// was unplugged since it was chosen does not stop a call.
pub fn choose_device(listed: &Vec<Listed>, wanted: Option<&str>) -> (chosen: Option<usize>)
    ensures
        match wanted {
            None => chosen is None,
            Some(id) => match chosen {
                Some(at) => {
                    &&& at < listed@.len()
                    &&& listed@[at as int].id@ == id@
                    &&& listed@[at as int].supported
                    &&& forall|i: int| 0 <= i < at ==> (#[trigger] listed@[i]).id@ != id@
                },
                None => forall|i: int|
                    0 <= i < listed@.len() && (#[trigger] listed@[i]).id@ == id@ && (forall|j: int|
                        0 <= j < i ==> (#[trigger] listed@[j]).id@ != id@) ==> !listed@[i].supported,
            },
        },
{
    let id = match wanted {
        Some(id) => id,
        None => return None,
    };
    let mut i: usize = 0;
    while i < listed.len()
        invariant
            i <= listed@.len(),
            wanted == Some(id),
            forall|j: int| 0 <= j < i ==> (#[trigger] listed@[j]).id@ != id@,
        decreases listed@.len() - i,
    {
        if text::same(listed[i].id.as_str(), id) {
            if listed[i].supported {
                return Some(i);
            }
            return None;
        }
        i += 1;
    }
    None
}

/// What is listed is every device that works in the direction asked for and has a name,
/// in the order of the host.
pub proof fn no_working_device_is_left_out(listed: Seq<Listed>)
    ensures
        presentable(listed) == listed.filter(
            |device: Listed| device.supported && device.name is Some,
        ),
    decreases listed.len(),
{
    reveal(Seq::filter);
    if listed.len() > 0 {
        no_working_device_is_left_out(listed.drop_last());
    }
}

/// A device is shown under its own id and name, and as the default exactly if its id is
/// the default's.
pub proof fn a_device_is_shown_as_itself(
    device: AudioDevice,
    listed: Listed,
    default: Option<Seq<char>>,
)
    requires
        is_shown(device, listed, default),
    ensures
        device.id@ == listed.id@,
        listed.name is Some && device.name@ == listed.name->0@,
        default is None ==> !device.is_default,
        default is Some ==> (device.is_default <==> device.id@ == default->0),
{
}

} // verus!
