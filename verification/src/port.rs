//! Typed, indexed port descriptors.
//!
//! A port names a point where a wire attaches to a node.  Ports are typed by
//! side (input/output) and rate (audio/control); the four flavours are
//! distinct structs so a connection cannot mix sides.  Indices are dense and
//! zero-based per (node, side, rate).

use vstd::prelude::*;

verus! {

/// Name and position of a port within its node's port list.
#[derive(Debug, PartialEq, Clone, Copy)]
pub struct PortMeta {
    pub name: &'static str,
    pub index: usize,
}

/// An audio-rate input port.
#[derive(Debug, PartialEq, Clone, Copy)]
pub struct AudioInputPort {
    pub meta: PortMeta,
}

/// An audio-rate output port.
#[derive(Debug, PartialEq, Clone, Copy)]
pub struct AudioOutputPort {
    pub meta: PortMeta,
}

/// A control-rate input port.
#[derive(Debug, PartialEq, Clone, Copy)]
pub struct ControlInputPort {
    pub meta: PortMeta,
}

/// A control-rate output port.
#[derive(Debug, PartialEq, Clone, Copy)]
pub struct ControlOutputPort {
    pub meta: PortMeta,
}

/// Whether a wire carries one sample per sample period (audio) or one per
/// control period (control).  A connection's two endpoints must agree.
#[derive(Debug, PartialEq, Eq, Clone, Copy, Hash, Structural)]
pub enum PortRate {
    Audio,
    Control,
}

/// A node's four port lists; a side a node does not have is `None`.
pub struct Ports {
    pub audio_inputs: Option<Vec<AudioInputPort>>,
    pub audio_outputs: Option<Vec<AudioOutputPort>>,
    pub control_inputs: Option<Vec<ControlInputPort>>,
    pub control_outputs: Option<Vec<ControlOutputPort>>,
}

impl Ports {
    pub fn get_audio_inputs(&self) -> (r: Option<&Vec<AudioInputPort>>)
        ensures
            r is Some <==> self.audio_inputs is Some,
            r is Some ==> *r->0 == self.audio_inputs->0,
    {
        self.audio_inputs.as_ref()
    }

    pub fn get_audio_outputs(&self) -> (r: Option<&Vec<AudioOutputPort>>)
        ensures
            r is Some <==> self.audio_outputs is Some,
            r is Some ==> *r->0 == self.audio_outputs->0,
    {
        self.audio_outputs.as_ref()
    }

    pub fn get_control_inputs(&self) -> (r: Option<&Vec<ControlInputPort>>)
        ensures
            r is Some <==> self.control_inputs is Some,
            r is Some ==> *r->0 == self.control_inputs->0,
    {
        self.control_inputs.as_ref()
    }

    pub fn get_control_outputs(&self) -> (r: Option<&Vec<ControlOutputPort>>)
        ensures
            r is Some <==> self.control_outputs is Some,
            r is Some ==> *r->0 == self.control_outputs->0,
    {
        self.control_outputs.as_ref()
    }
}

/// Port queries with the node's concrete port-count types erased, so any
/// node can be stored and scheduled uniformly.
pub trait PortedErased {
    fn get_audio_inputs(&self) -> Option<&Vec<AudioInputPort>>;

    fn get_audio_outputs(&self) -> Option<&Vec<AudioOutputPort>>;

    fn get_control_inputs(&self) -> Option<&Vec<ControlInputPort>>;

    fn get_control_outputs(&self) -> Option<&Vec<ControlOutputPort>>;
}

/// Error for a port index that names no port.
#[derive(Debug, PartialEq, Eq, Clone, Copy, Structural)]
pub enum PortError {
    InvalidPort,
}

/// A dense zero-based index for an enumeration of ports, convertible in
/// both directions.  An enum of port names implements this so wires can be
/// attached by name.
pub trait Port: Sized {
    fn into_index(&self) -> usize;

    fn from_index(index: usize) -> Result<Self, PortError>;
}

/// Audio input ports 0..count, named "in" (or "l"/"r" for a stereo pair).
pub fn generate_audio_inputs(count: usize) -> (r: Vec<AudioInputPort>)
    ensures
        r@.len() == count,
        forall|i: int| 0 <= i < count ==> (#[trigger] r@[i]).meta.index == i,
        count == 2 ==> r@[0].meta.name@ == "l"@ && r@[1].meta.name@ == "r"@,
        count != 2 ==> forall|i: int| 0 <= i < count ==> (#[trigger] r@[i]).meta.name@ == "in"@,
{
    let mut r: Vec<AudioInputPort> = Vec::new();
    let mut i: usize = 0;
    while i < count
        invariant
            i <= count,
            r@.len() == i,
            forall|j: int| 0 <= j < i ==> (#[trigger] r@[j]).meta.index == j,
            count == 2 ==> forall|j: int|
                0 <= j < i ==> (#[trigger] r@[j]).meta.name@ == (if j == 0 {
                    "l"@
                } else {
                    "r"@
                }),
            count != 2 ==> forall|j: int| 0 <= j < i ==> (#[trigger] r@[j]).meta.name@ == "in"@,
        decreases count - i,
    {
        let name: &'static str = if count == 2 {
            if i == 0 {
                "l"
            } else {
                "r"
            }
        } else {
            "in"
        };
        r.push(AudioInputPort { meta: PortMeta { name, index: i } });
        i = i + 1;
    }
    r
}

/// Audio output ports 0..count, named "out" (or "l"/"r" for a stereo pair).
pub fn generate_audio_outputs(count: usize) -> (r: Vec<AudioOutputPort>)
    ensures
        r@.len() == count,
        forall|i: int| 0 <= i < count ==> (#[trigger] r@[i]).meta.index == i,
        count == 2 ==> r@[0].meta.name@ == "l"@ && r@[1].meta.name@ == "r"@,
        count != 2 ==> forall|i: int| 0 <= i < count ==> (#[trigger] r@[i]).meta.name@ == "out"@,
{
    let mut r: Vec<AudioOutputPort> = Vec::new();
    let mut i: usize = 0;
    while i < count
        invariant
            i <= count,
            r@.len() == i,
            forall|j: int| 0 <= j < i ==> (#[trigger] r@[j]).meta.index == j,
            count == 2 ==> forall|j: int|
                0 <= j < i ==> (#[trigger] r@[j]).meta.name@ == (if j == 0 {
                    "l"@
                } else {
                    "r"@
                }),
            count != 2 ==> forall|j: int| 0 <= j < i ==> (#[trigger] r@[j]).meta.name@ == "out"@,
        decreases count - i,
    {
        let name: &'static str = if count == 2 {
            if i == 0 {
                "l"
            } else {
                "r"
            }
        } else {
            "out"
        };
        r.push(AudioOutputPort { meta: PortMeta { name, index: i } });
        i = i + 1;
    }
    r
}

/// The port lists of a mono-to-stereo fanout: one audio input ("audio"),
/// two audio outputs ("l", "r").
pub struct StereoPorts {
    pub audio_inputs: Vec<AudioInputPort>,
    pub audio_outputs: Vec<AudioOutputPort>,
}

impl StereoPorts {
    pub fn new() -> (r: Self)
        ensures
            r.audio_inputs@.len() == 1,
            r.audio_inputs@[0].meta.index == 0,
            r.audio_inputs@[0].meta.name@ == "audio"@,
            r.audio_outputs@.len() == 2,
            r.audio_outputs@[0].meta.index == 0,
            r.audio_outputs@[0].meta.name@ == "l"@,
            r.audio_outputs@[1].meta.index == 1,
            r.audio_outputs@[1].meta.name@ == "r"@,
    {
        let mut audio_inputs: Vec<AudioInputPort> = Vec::new();
        audio_inputs.push(AudioInputPort { meta: PortMeta { name: "audio", index: 0 } });
        let mut audio_outputs: Vec<AudioOutputPort> = Vec::new();
        audio_outputs.push(AudioOutputPort { meta: PortMeta { name: "l", index: 0 } });
        audio_outputs.push(AudioOutputPort { meta: PortMeta { name: "r", index: 1 } });
        StereoPorts { audio_inputs, audio_outputs }
    }
}

} // verus!
