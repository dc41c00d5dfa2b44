use vstd::prelude::*;

use crate::registry::{DynamicId, Registry};

verus! {

/// How a method takes one of its arguments, with the id of the argument's type.
#[derive(Clone, Copy, Debug, PartialEq, Eq, Structural)]
pub enum MethodArgType {
    Mut(DynamicId),
    Ref(DynamicId),
    Owned(DynamicId),
}

impl MethodArgType {
    /// The id of the argument's type.
    pub open spec fn spec_type_id(self) -> DynamicId {
        match self {
            MethodArgType::Mut(id) => id,
            MethodArgType::Ref(id) => id,
            MethodArgType::Owned(id) => id,
        }
    }

    pub fn type_id(&self) -> (r: DynamicId)
        ensures
            r == self.spec_type_id(),
    {
        match self {
            MethodArgType::Mut(id) | MethodArgType::Ref(id) | MethodArgType::Owned(id) => *id,
        }
    }

    pub fn is_mut(&self) -> (r: bool)
        ensures
            r == (*self is Mut),
    {
        matches!(self, MethodArgType::Mut(_))
    }

    pub fn is_ref(&self) -> (r: bool)
        ensures
            r == (*self is Ref),
    {
        matches!(self, MethodArgType::Ref(_))
    }

    pub fn is_owned(&self) -> (r: bool)
        ensures
            r == (*self is Owned),
    {
        matches!(self, MethodArgType::Owned(_))
    }
}

/// Why a method call was refused.
#[derive(Clone, Copy, Debug, PartialEq, Eq, Structural)]
pub enum MethodCallError {
    /// The call gave `given` arguments to a method that takes `expected`.
    ArgumentCount { given: usize, expected: usize },
    /// An argument of type `given` stood where the method takes type `expected`.
    ArgumentType { given: DynamicId, expected: DynamicId },
    /// The method gave back a value of type `given` where it promises type `expected`.
    ReturnType { given: DynamicId, expected: DynamicId },
}

/// Checks the arguments of a method call against the method's argument types: first their
/// number, then the type of each in order. The first argument of the wrong type is reported.
pub fn check_arguments(arg_types: &[MethodArgType], args: &[&Data]) -> (r: Result<(), MethodCallError>)
    ensures
        args@.len() != arg_types@.len() ==> r == Err::<(), MethodCallError>(
            MethodCallError::ArgumentCount { given: args@.len() as usize, expected: arg_types@.len() as usize },
        ),
        args@.len() == arg_types@.len() ==> (r is Ok <==> forall|i: int|
            0 <= i < args@.len() ==> (#[trigger] args@[i]).type_id == arg_types@[i].spec_type_id()),
        r matches Err(e) ==> !(e is ReturnType),
        r matches Err(MethodCallError::ArgumentType { given, expected }) ==> exists|i: int| {
            &&& 0 <= i < args@.len()
            &&& forall|j: int| 0 <= j < i ==> (#[trigger] args@[j]).type_id == arg_types@[j].spec_type_id()
            &&& given == args@[i].type_id
            &&& expected == arg_types@[i].spec_type_id()
            &&& given != expected
        },
{
    if args.len() != arg_types.len() {
        return Err(MethodCallError::ArgumentCount { given: args.len(), expected: arg_types.len() });
    }
    let mut i: usize = 0;
    while i < args.len()
        invariant
            args@.len() == arg_types@.len(),
            0 <= i <= args@.len(),
            forall|j: int| 0 <= j < i ==> (#[trigger] args@[j]).type_id == arg_types@[j].spec_type_id(),
        decreases args@.len() - i,
    {
        let expected = arg_types[i].type_id();
        if args[i].type_id != expected {
            return Err(MethodCallError::ArgumentType { given: args[i].type_id, expected });
        }
        i = i + 1;
    }
    Ok(())
}

/// Checks the value a method gave back against the type it promises, if it promises one.
pub fn check_return(return_type: Option<MethodArgType>, result: &Data) -> (r: Result<(), MethodCallError>)
    ensures
        r == (match return_type {
            Some(t) => if result.type_id == t.spec_type_id() {
                Ok(())
            } else {
                Err(MethodCallError::ReturnType { given: result.type_id, expected: t.spec_type_id() })
            },
            None => Ok::<(), MethodCallError>(()),
        }),
{
    match return_type {
        Some(t) => {
            let expected = t.type_id();
            if result.type_id != expected {
                Err(MethodCallError::ReturnType { given: result.type_id, expected })
            } else {
                Ok(())
            }
        },
        None => Ok(()),
    }
}

/// A type-erased component: the id and name of its type, the name of the field it is held
/// in (if it is a field), and its own fields.
pub struct Data {
    pub type_id: DynamicId,
    pub type_label: String,
    pub field_name: Option<String>,
    pub fields: Vec<Data>,
    pub is_clone: bool,
}

impl Data {
    /// A component whose type is known by name only; its type id is the registry's id for
    /// that name.
    pub fn new_dynamic(
        type_label: &str,
        field_name: Option<&str>,
        is_clone: bool,
        fields: Vec<Data>,
        registry: &mut Registry,
    ) -> (d: Self)
        requires
            old(registry).wf(),
            !old(registry).has_name(type_label@) ==> old(registry).next() < u32::MAX,
        ensures
            final(registry).wf(),
            final(registry).has_name(type_label@),
            d.type_id == final(registry).id_of(type_label@),
            old(registry).has_name(type_label@) ==> *final(registry) == *old(registry),
            !old(registry).has_name(type_label@) ==> d.type_id == old(registry).next()
                && final(registry).next() == old(registry).next() + 1
                && final(registry).named() == old(registry).named().push((type_label@, d.type_id)),
            old(registry).fresh_above() ==> final(registry).fresh_above(),
            d.type_label@ == type_label@,
            field_name is None ==> d.field_name is None,
            field_name matches Some(n) ==> d.field_name matches Some(m) && m@ == n@,
            d.fields@ == fields@,
            d.is_clone == is_clone,
    {
        let type_id = registry.get_named(type_label);
        let field_name = match field_name {
            Some(n) => Some(n.to_owned()),
            None => None,
        };
        Data { type_id, type_label: type_label.to_owned(), field_name, fields, is_clone }
    }

    pub fn type_id(&self) -> (r: DynamicId)
        ensures
            r == self.type_id,
    {
        self.type_id
    }

    /// The name of the component's type.
    pub fn type_label(&self) -> (r: &str)
        ensures
            r@ == self.type_label@,
    {
        self.type_label.as_str()
    }

    /// The name of the field that holds the component, if it is a field.
    pub fn field_name(&self) -> (r: Option<&str>)
        ensures
            r is None <==> self.field_name is None,
            r matches Some(n) ==> n@ == self.field_name->0@,
    {
        match &self.field_name {
            Some(n) => Some(n.as_str()),
            None => None,
        }
    }

    /// The field name if there is one, else the type name.
    pub fn name(&self) -> (r: &str)
        ensures
            r@ == match self.field_name {
                Some(n) => n@,
                None => self.type_label@,
            },
    {
        match &self.field_name {
            Some(n) => n.as_str(),
            None => self.type_label.as_str(),
        }
    }

    pub fn is_clone(&self) -> (r: bool)
        ensures
            r == self.is_clone,
    {
        self.is_clone
    }

    /// A copy of the component and all of its fields.
    pub fn duplicate(&self) -> (r: Data)
        ensures
            r.model() == self.model(),
        decreases self,
    {
        let mut fields: Vec<Data> = Vec::new();
        let n = self.fields.len();
        let mut i: usize = 0;
        while i < n
            invariant
                n == self.fields@.len(),
                i <= n,
                fields@.len() == i,
                forall|j: int| 0 <= j < i ==> (#[trigger] fields@[j]).model() == self.fields@[j].model(),
            decreases n - i,
        {
            proof {
                assert(decreases_to!(self => self.fields));
            }
            let f = self.fields[i].duplicate();
            fields.push(f);
            i = i + 1;
        }
        let field_name = match &self.field_name {
            Some(n) => Some(n.clone()),
            None => None,
        };
        let r = Data {
            type_id: self.type_id,
            type_label: self.type_label.clone(),
            field_name,
            fields,
            is_clone: self.is_clone,
        };
        assert(r.model().fields =~= self.model().fields);
        assert(r.model().field_name == self.model().field_name);
        assert(r.model() =~= self.model());
        r
    }

    /// Copies of the component's fields.
    pub fn fields(&self) -> (r: Vec<Data>)
        ensures
            r@.len() == self.fields@.len(),
            forall|j: int| 0 <= j < r@.len() ==> (#[trigger] r@[j]).model() == self.fields@[j].model(),
    {
        let mut fields: Vec<Data> = Vec::new();
        let n = self.fields.len();
        let mut i: usize = 0;
        while i < n
            invariant
                n == self.fields@.len(),
                i <= n,
                fields@.len() == i,
                forall|j: int| 0 <= j < i ==> (#[trigger] fields@[j]).model() == self.fields@[j].model(),
            decreases n - i,
        {
            fields.push(self.fields[i].duplicate());
            i = i + 1;
        }
        fields
    }

    /// The first field of the given type.
    pub fn field_by_id(&self, id: DynamicId) -> (r: Option<Data>)
        ensures
            r is None <==> forall|j: int| 0 <= j < self.fields@.len() ==> (#[trigger] self.fields@[j]).type_id != id,
            r matches Some(d) ==> exists|j: int| 0 <= j < self.fields@.len() && (#[trigger] self.fields@[j]).model() == d.model()
                && d.type_id == id && forall|k: int| 0 <= k < j ==> (#[trigger] self.fields@[k]).type_id != id,
    {
        let n = self.fields.len();
        let mut i: usize = 0;
        while i < n
            invariant
                n == self.fields@.len(),
                i <= n,
                forall|k: int| 0 <= k < i ==> (#[trigger] self.fields@[k]).type_id != id,
            decreases n - i,
        {
            if self.fields[i].type_id == id {
                return Some(self.fields[i].duplicate());
            }
            i = i + 1;
        }
        None
    }

    /// The first field with the given field name.
    pub fn field_by_name(&self, name: &str) -> (r: Option<Data>)
        ensures
            r is None <==> forall|j: int| 0 <= j < self.fields@.len() ==> !has_field_name(#[trigger] self.fields@[j], name@),
            r matches Some(d) ==> exists|j: int| 0 <= j < self.fields@.len() && (#[trigger] self.fields@[j]).model() == d.model()
                && has_field_name(d, name@) && forall|k: int| 0 <= k < j ==> !has_field_name(#[trigger] self.fields@[k], name@),
    {
        let wanted: String = name.to_owned();
        let n = self.fields.len();
        let mut i: usize = 0;
        while i < n
            invariant
                n == self.fields@.len(),
                i <= n,
                wanted@ == name@,
                forall|k: int| 0 <= k < i ==> !has_field_name(#[trigger] self.fields@[k], name@),
            decreases n - i,
        {
            let hit = match &self.fields[i].field_name {
                Some(f) => *f == wanted,
                None => false,
            };
            if hit {
                return Some(self.fields[i].duplicate());
            }
            i = i + 1;
        }
        None
    }
}

/// The plain value of a component: its type, names and fields.
#[verifier::ext_equal]
pub struct DataModel {
    pub type_id: DynamicId,
    pub type_label: Seq<char>,
    pub field_name: Option<Seq<char>>,
    pub fields: Seq<DataModel>,
    pub is_clone: bool,
}

impl Data {
    /// The component as a plain value.
    pub open spec fn model(&self) -> DataModel
        decreases self,
    {
        DataModel {
            type_id: self.type_id,
            type_label: self.type_label@,
            field_name: match self.field_name {
                Some(n) => Some(n@),
                None => None,
            },
            fields: Seq::new(
                self.fields@.len(),
                |i: int|
                    if 0 <= i < self.fields@.len() {
                        self.fields@[i].model()
                    } else {
                        arbitrary()
                    },
            ),
            is_clone: self.is_clone,
        }
    }
}

/// Whether the component is held in a field of that name.
pub open spec fn has_field_name(d: Data, name: Seq<char>) -> bool {
    d.field_name matches Some(n) && n@ == name
}

} // verus!
