use vstd::prelude::*;

use crate::event::EventTable;

verus! {

/// The kinds of value that flow along connections.
#[derive(Debug, Clone, Copy, PartialEq, Eq, Structural)]
pub enum ValueType {
    Int,
    Text,
    Flag,
}

/// A value carried from an output port to an input port.
#[derive(Debug, Clone)]
pub enum Value {
    Int(i64),
    Text(String),
    Flag(bool),
}

impl Value {
    pub open spec fn spec_type(&self) -> ValueType {
        match self {
            Value::Int(_) => ValueType::Int,
            Value::Text(_) => ValueType::Text,
            Value::Flag(_) => ValueType::Flag,
        }
    }

    /// A copy of the value.
    pub fn copy(&self) -> (r: Value)
        ensures
            r == *self,
    {
        match self {
            Value::Int(i) => Value::Int(*i),
            Value::Text(t) => Value::Text(t.clone()),
            Value::Flag(b) => Value::Flag(*b),
        }
    }

    pub fn value_type(&self) -> (r: ValueType)
        ensures
            r == self.spec_type(),
    {
        match self {
            Value::Int(_) => ValueType::Int,
            Value::Text(_) => ValueType::Text,
            Value::Flag(_) => ValueType::Flag,
        }
    }
}

/// A named, typed port of a plugin.
#[derive(Debug, Clone)]
pub struct Port {
    pub name: String,
    pub ty: ValueType,
}

/// Named values handed to, or produced by, a plugin.
pub type IOType = Vec<(String, Value)>;

/// The three capability classes of plugins.
#[allow(non_camel_case_types)]
#[derive(Debug, Clone, Copy, PartialEq, Eq, Structural)]
pub enum R_E_AClass {
    Render,
    Extension,
    App,
}

/// What every plugin tells about itself.
#[allow(non_camel_case_types)]
pub trait R_E_AGeneric {
    fn get_name(&self) -> String;

    /// The input ports, apart from the timeline that Renders and Apps get.
    fn get_inputs(&self) -> Vec<Port>;
}

/// A read-only observer of the timeline.
pub trait Render: R_E_AGeneric {
    fn run(&self, et: EventTable, inputs: IOType) -> Result<(), String>;
}

/// A transform from inputs to outputs, with no access to the timeline.
pub trait Extension: R_E_AGeneric {
    fn get_outputs(&self) -> Vec<Port>;

    fn run(&self, inputs: IOType) -> Result<IOType, String>;
}

/// The only kind of plugin that replaces the timeline.
pub trait App: R_E_AGeneric {
    fn run(&self, et: EventTable, inputs: IOType) -> Result<EventTable, String>;
}

/// A plugin of one of the three classes.
#[allow(non_camel_case_types)]
pub enum R_E_A<R, E, A> {
    Render(R),
    Extension(E),
    App(A),
}

impl<R: Render, E: Extension, A: App> R_E_A<R, E, A> {
    pub open spec fn spec_class(&self) -> R_E_AClass {
        match self {
            R_E_A::Render(_) => R_E_AClass::Render,
            R_E_A::Extension(_) => R_E_AClass::Extension,
            R_E_A::App(_) => R_E_AClass::App,
        }
    }

    pub fn get_name(&self) -> String {
        match self {
            R_E_A::Render(r) => r.get_name(),
            R_E_A::Extension(e) => e.get_name(),
            R_E_A::App(a) => a.get_name(),
        }
    }

    /// The class, read from the variant.
    pub fn get_class(&self) -> (r: R_E_AClass)
        ensures
            r == self.spec_class(),
    {
        match self {
            R_E_A::Render(_) => R_E_AClass::Render,
            R_E_A::Extension(_) => R_E_AClass::Extension,
            R_E_A::App(_) => R_E_AClass::App,
        }
    }

    pub fn get_inputs(&self) -> Vec<Port> {
        match self {
            R_E_A::Render(r) => r.get_inputs(),
            R_E_A::Extension(e) => e.get_inputs(),
            R_E_A::App(a) => a.get_inputs(),
        }
    }

    /// The output ports: only Extensions have any.
    pub fn get_outputs(&self) -> (r: Vec<Port>)
        ensures
            !(self is Extension) ==> r@.len() == 0,
    {
        match self {
            R_E_A::Extension(e) => e.get_outputs(),
            _ => Vec::new(),
        }
    }
}

} // verus!
