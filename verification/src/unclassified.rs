//! The `core_functions_unclassified` natives: `mutateAdd`.
use vstd::prelude::*;

use crate::natives::{registrations, NativeRegistry};
use crate::tds::Multi;
use crate::text::concat;

verus! {

/// What an argument of `mutateAdd` is, as far as the native looks.
#[derive(Debug)]
pub enum ArgKind {
    /// An object, by its heap handle.
    Object(u64),
    /// A string value.
    Text(String),
    /// Anything else.
    Other,
}

/// An argument of `mutateAdd`: what it is and the name of its type.
#[derive(Debug)]
pub struct MutateArg {
    pub kind: ArgKind,
    pub kind_name: String,
}

/// The mutation `mutateAdd` asks of the heap: append `values` to the
/// property `property` of the object `handle` (which it then returns).
#[derive(Debug)]
pub struct Mutation<T> {
    pub handle: u64,
    pub property: String,
    pub values: Vec<T>,
}

/// The refusal of a first argument that is not an object.
pub open spec fn not_object_message(kind_name: Seq<char>) -> Seq<char> {
    "mutateAdd: expected an object as the first argument, got "@ + kind_name
}

/// The refusal of a second argument that is not a string.
pub open spec fn not_string_message(kind_name: Seq<char>) -> Seq<char> {
    "mutateAdd: expected a String as the second argument, got "@ + kind_name
}

/// `mutateAdd(obj, property, value)`: appends values to a property of an
/// object, in place, and returns the object.
#[derive(Debug)]
pub struct MutateAdd;

impl MutateAdd {
    /// Checks the arguments and says what to append where: the object
    /// must be an object and the property a string; the values are
    /// `value`'s elements (none for `Unit`).
    pub fn execute<T>(&self, obj: MutateArg, property: MutateArg, value: Multi<T>) -> (r: Result<Mutation<T>, String>)
        ensures
            !(obj.kind is Object) ==> r is Err && r->Err_0@ == not_object_message(obj.kind_name@),
            obj.kind is Object && !(property.kind is Text) ==> r is Err && r->Err_0@ == not_string_message(
                property.kind_name@,
            ),
            obj.kind is Object && property.kind is Text ==> r is Ok && r->Ok_0.handle == obj.kind->Object_0
                && r->Ok_0.property@ == property.kind->Text_0@ && r->Ok_0.values@ == value.items(),
    {
        let handle = match obj.kind {
            ArgKind::Object(h) => h,
            _ => {
                return Err(concat("mutateAdd: expected an object as the first argument, got ", obj.kind_name.as_str()));
            },
        };
        let name = match property.kind {
            ArgKind::Text(s) => s,
            _ => {
                return Err(concat("mutateAdd: expected a String as the second argument, got ", property.kind_name.as_str()));
            },
        };
        let values = self.appended_values(value);
        Ok(Mutation { handle, property: name, values })
    }

    /// The values `mutateAdd` appends for a `[*]` argument: a collection's
    /// elements, nothing for `Unit`, else the single value.
    pub fn appended_values<T>(&self, value: Multi<T>) -> (r: Vec<T>)
        ensures
            r@ == value.items(),
    {
        let mut out: Vec<T> = Vec::new();
        crate::tds::push_flat(&mut out, value);
        assert(out@ =~= value.items());
        out
    }
}

/// The `core_functions_unclassified` extension.
#[derive(Debug, Default, Clone, Copy)]
pub struct FunctionsUnclassifiedExtension;

impl FunctionsUnclassifiedExtension {
    /// The extension's name.
    pub fn name(&self) -> (r: String)
        ensures
            r@ == "core_functions_unclassified"@,
    {
        "core_functions_unclassified".to_string()
    }

    /// Registers `mutateAdd` under its mangled name.
    pub fn register_natives(&self, registry: &mut NativeRegistry)
        ensures
            registrations(final(registry).entries@) == registrations(old(registry).entries@).push(
                ("mutateAdd_T_1__String_1__Any_MANY__T_1_"@, "MutateAdd"@),
            ),
    {
        registry.register("mutateAdd_T_1__String_1__Any_MANY__T_1_", "MutateAdd");
    }
}

} // verus!
