//! The state subsystem's picture of a live plugin instance, and the accessor
//! traits through which a caller produces or consumes port values.
//!
//! The live DSP object itself stays outside the library; whoever owns one
//! hands over its configurable surface in this form, and applies the outcome
//! back to the real instance.

use vstd::prelude::*;

verus! {

/// One plugin-level configuration datum as the instance exposes it: a key
/// identifier, the type identifier of its value, and the value bytes.
pub struct InstanceProperty {
    pub key: String,
    pub type_uri: String,
    pub value: Vec<u8>,
}

#[verifier::ext_equal]
pub ghost struct InstancePropertyView {
    pub key: Seq<char>,
    pub ty: Seq<char>,
    pub val: Seq<u8>,
}

impl View for InstanceProperty {
    type V = InstancePropertyView;

    open spec fn view(&self) -> InstancePropertyView {
        InstancePropertyView { key: self.key@, ty: self.type_uri@, val: self.value@ }
    }
}

/// The configurable surface of a live plugin instance as the state subsystem
/// reads and writes it: the plugin's identity, the properties it exposes, and
/// its port symbols.
pub struct Instance {
    pub plugin_uri: String,
    pub properties: Vec<InstanceProperty>,
    pub port_symbols: Vec<String>,
}

#[verifier::ext_equal]
pub ghost struct InstanceView {
    pub plugin_uri: Seq<char>,
    pub props: Seq<InstancePropertyView>,
    pub ports: Seq<Seq<char>>,
}

impl View for Instance {
    type V = InstanceView;

    open spec fn view(&self) -> InstanceView {
        InstanceView {
            plugin_uri: self.plugin_uri@,
            props: Seq::new(self.properties@.len(), |i: int| self.properties@[i]@),
            ports: Seq::new(self.port_symbols@.len(), |i: int| self.port_symbols@[i]@),
        }
    }
}

impl Instance {
    /// A usable instance names the plugin it belongs to.
    pub open spec fn wf(&self) -> bool {
        self@.plugin_uri.len() > 0
    }
}

/// Caller-supplied accessor that produces the value of one port during a
/// capture: given the port's symbol it returns the value's type identifier
/// and its bytes. The engine never validates what it returns; that is the
/// caller's responsibility.
pub trait GetValue {
    fn get_value(&mut self, port_symbol: &str) -> (u32, Vec<u8>);
}

/// Caller-supplied accessor that consumes the value of one port during a
/// restore or an emission. Invocation order across ports is unspecified; each
/// invocation is independent and side-effect-only.
pub trait SetValue {
    fn set_value(&mut self, port_symbol: &str, type_: u32, value: &Vec<u8>);
}

} // verus!
