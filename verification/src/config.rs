//! What an analysis is told of the machine, the program and the platform.
use vstd::prelude::*;
use vstd::string::*;
use crate::syntax::{Assertion, Call};

verus! {

/// Parameters of the machine.
#[derive(Clone, Copy, Debug, PartialEq, Eq, Structural)]
pub struct EbpfRuntimeConfig {
    /// The bytes of stack of one function.
    pub subprogram_stack_size: i32,
    /// The most functions that are active at a time.
    pub max_call_stack_frames: i32,
    pub big_endian: bool,
    pub strict: bool,
    pub allow_division_by_zero: bool,
    pub max_packet_size: i32,
}

impl EbpfRuntimeConfig {
    pub const MAX_SUBPROGRAM_STACK_SIZE_LIMIT: i32 = 65536;
    pub const MAX_CALL_STACK_FRAMES_LIMIT: i32 = 64;

    /// The bytes of stack of all functions.
    pub open spec fn stack_size(&self) -> int {
        self.subprogram_stack_size * self.max_call_stack_frames
    }

    /// The parameters are in range.
    pub open spec fn valid(&self) -> bool {
        &&& 1 <= self.subprogram_stack_size <= 65536
        &&& 1 <= self.max_call_stack_frames <= 64
        &&& 0 < self.max_packet_size
    }

    /// A valid configuration has a stack whose size fits.
    pub proof fn stack_size_fits(&self)
        requires self.valid(),
        ensures 0 < self.stack_size() <= i32::MAX,
    {
        let a = self.subprogram_stack_size as int;
        let b = self.max_call_stack_frames as int;
        assert(0 < a * b <= 65536 * 64) by(nonlinear_arith) requires 1 <= a <= 65536, 1 <= b <= 64;
    }

    pub fn total_stack_size(&self) -> (r: i32)
        requires self.valid(),
        ensures r == self.stack_size(),
    {
        proof { self.stack_size_fits(); }
        self.subprogram_stack_size * self.max_call_stack_frames
    }

    /// The largest value of a pointer.
    pub open spec fn pointer_limit(&self) -> int {
        i32::MAX - self.max_packet_size
    }

    pub fn ptr_max(&self) -> (r: i64)
        ensures r == self.pointer_limit(),
    {
        i32::MAX as i64 - self.max_packet_size as i64
    }

    /// Checks that the parameters are in range; the message names the first that is not.
    pub fn validate(&self) -> (r: Result<(), String>)
        ensures
            r is Ok <==> self.valid(),
            r matches Err(m) ==> m@ == (if !(1 <= self.subprogram_stack_size <= 65536) {
                "subprogram_stack_size is out of range"@
            } else if !(1 <= self.max_call_stack_frames <= 64) {
                "max_call_stack_frames is out of range"@
            } else {
                "max_packet_size must be positive"@
            }),
    {
        if self.subprogram_stack_size < 1 || self.subprogram_stack_size > EbpfRuntimeConfig::MAX_SUBPROGRAM_STACK_SIZE_LIMIT {
            return Err(String::from_str("subprogram_stack_size is out of range"));
        }
        if self.max_call_stack_frames < 1 || self.max_call_stack_frames > EbpfRuntimeConfig::MAX_CALL_STACK_FRAMES_LIMIT {
            return Err(String::from_str("max_call_stack_frames is out of range"));
        }
        if self.max_packet_size <= 0 {
            return Err(String::from_str("max_packet_size must be positive"));
        }
        Ok(())
    }
}

impl Default for EbpfRuntimeConfig {
    fn default() -> (r: Self)
        ensures r.valid(), r.stack_size() == 4096, !r.big_endian, !r.strict, r.allow_division_by_zero, r.max_packet_size == 0xffff,
    {
        EbpfRuntimeConfig {
            subprogram_stack_size: 512,
            max_call_stack_frames: 8,
            big_endian: false,
            strict: false,
            allow_division_by_zero: true,
            max_packet_size: 0xffff,
        }
    }
}

/// Options of an analysis beyond the machine's parameters.
#[derive(Clone, Copy, Debug, PartialEq, Eq, Structural)]
pub struct EbpfVerifierOptions {
    pub check_for_termination: bool,
}

/// Where a context holds the packet pointers; a negative offset means that it holds none.
#[derive(Clone, Copy, Debug, PartialEq, Eq, Structural)]
pub struct EbpfContextDescriptor {
    pub size: i32,
    pub data: i32,
    pub end: i32,
    pub meta: i32,
}

/// What is known of a program.
pub struct ProgramInfo {
    pub context_descriptor: Option<EbpfContextDescriptor>,
    /// The labels at which callbacks start, and those from which an exit can be reached.
    pub callback_targets: Vec<i32>,
    pub callback_targets_with_exit: Vec<i32>,
}

/// A map that a program uses.
#[derive(Clone, Copy, Debug, PartialEq, Eq, Structural)]
pub struct EbpfMapDescriptor {
    pub original_fd: i32,
    pub map_type: u32,
    pub key_size: u32,
    pub value_size: u32,
    pub max_entries: u32,
    pub inner_map_fd: i32,
}

/// What the values of a map are.
#[derive(Clone, Copy, Debug, PartialEq, Eq, Structural)]
pub enum EbpfMapValueType {
    Any,
    InnerMap,
    Program,
}

/// A type of maps.
#[derive(Clone, Copy, Debug, PartialEq, Eq, Structural)]
pub struct EbpfMapType {
    pub map_type: u32,
    pub is_array: bool,
    pub value_type: EbpfMapValueType,
}

/// A helper function that can be called, with what must hold before a call.
pub struct Helper {
    pub id: i32,
    pub call: Call,
    pub assertions: Vec<(Assertion, String)>,
}

/// The maps and the helper functions of a platform.
pub struct EbpfPlatform {
    pub maps: Vec<EbpfMapDescriptor>,
    pub map_types: Vec<EbpfMapType>,
    pub helpers: Vec<Helper>,
}

impl EbpfPlatform {
    /// A helper function takes registers that exist, and relies on no other helper function.
    pub open spec fn ok(&self) -> bool {
        forall|i: int| 0 <= i < self.helpers@.len() ==> (#[trigger] self.helpers@[i]).call.contract.ok()
            && forall|j: int| 0 <= j < self.helpers@[i].assertions@.len() ==> (#[trigger] self.helpers@[i].assertions@[j]).0.ok()
                && !(self.helpers@[i].assertions@[j].0 is FuncConstraint)
    }

    /// The first of some maps with a descriptor number.
    pub open spec fn map_from(&self, fd: int, i: int) -> Option<EbpfMapDescriptor>
        decreases self.maps@.len() - i,
    {
        if i < 0 || i >= self.maps@.len() { None }
        else if self.maps@[i].original_fd == fd { Some(self.maps@[i]) }
        else { self.map_from(fd, i + 1) }
    }

    pub fn get_map_descriptor(&self, fd: i32) -> (r: Option<EbpfMapDescriptor>)
        ensures r == self.map_from(fd as int, 0),
    {
        let mut i: usize = 0;
        while i < self.maps.len()
            invariant
                i <= self.maps.len(),
                self.map_from(fd as int, 0) == self.map_from(fd as int, i as int),
            decreases self.maps.len() - i,
        {
            if self.maps[i].original_fd == fd {
                return Some(self.maps[i]);
            }
            i = i + 1;
        }
        None
    }

    /// What is known of a type of maps; a plain one where nothing is.
    pub open spec fn type_from(&self, t: u32, i: int) -> EbpfMapType
        decreases self.map_types@.len() - i,
    {
        if i < 0 || i >= self.map_types@.len() { EbpfMapType { map_type: t, is_array: false, value_type: EbpfMapValueType::Any } }
        else if self.map_types@[i].map_type == t { self.map_types@[i] }
        else { self.type_from(t, i + 1) }
    }

    pub fn get_map_type(&self, t: u32) -> (r: EbpfMapType)
        ensures r == self.type_from(t, 0),
    {
        let mut i: usize = 0;
        while i < self.map_types.len()
            invariant
                i <= self.map_types.len(),
                self.type_from(t, 0) == self.type_from(t, i as int),
            decreases self.map_types.len() - i,
        {
            if self.map_types[i].map_type == t {
                return self.map_types[i];
            }
            i = i + 1;
        }
        EbpfMapType { map_type: t, is_array: false, value_type: EbpfMapValueType::Any }
    }

    /// The place of the first helper function with a number.
    pub open spec fn helper_from(&self, id: int, i: int) -> Option<int>
        decreases self.helpers@.len() - i,
    {
        if i < 0 || i >= self.helpers@.len() { None }
        else if self.helpers@[i].id == id { Some(i) }
        else { self.helper_from(id, i + 1) }
    }

    pub fn get_helper(&self, id: i32) -> (r: Option<usize>)
        ensures
            r is Some <==> self.helper_from(id as int, 0) is Some,
            r matches Some(i) ==> self.helper_from(id as int, 0) == Some(i as int) && i < self.helpers@.len() && self.helpers@[i as int].id == id,
    {
        let mut i: usize = 0;
        while i < self.helpers.len()
            invariant
                i <= self.helpers.len(),
                self.helper_from(id as int, 0) == self.helper_from(id as int, i as int),
            decreases self.helpers.len() - i,
        {
            if self.helpers[i].id == id {
                return Some(i);
            }
            i = i + 1;
        }
        None
    }
}

/// What the operations on a state need to know.
pub struct DomainContext {
    pub program_info: ProgramInfo,
    pub runtime: EbpfRuntimeConfig,
    pub options: EbpfVerifierOptions,
    pub platform: EbpfPlatform,
}

impl DomainContext {
    /// The parameters are in range, and the layout of the context is known.
    pub open spec fn ok(&self) -> bool {
        &&& self.runtime.valid()
        &&& self.program_info.context_descriptor is Some
        &&& self.platform.ok()
    }

    pub open spec fn layout(&self) -> EbpfContextDescriptor {
        self.program_info.context_descriptor->Some_0
    }

    pub fn new(program_info: ProgramInfo, runtime: EbpfRuntimeConfig, options: EbpfVerifierOptions, platform: EbpfPlatform) -> (r: Self)
        ensures r == (DomainContext { program_info, runtime, options, platform }),
    {
        DomainContext { program_info, runtime, options, platform }
    }

    /// The layout of the context.
    pub fn descriptor(&self) -> (r: EbpfContextDescriptor)
        requires self.program_info.context_descriptor is Some,
        ensures r == self.layout(),
    {
        *self.program_info.context_descriptor.as_ref().unwrap()
    }
}

}
