use vstd::prelude::*;

use std::rc::Rc;

use crate::errors::{KError, KResult};
use crate::reader::BytesReader;

verus! {

/// A custom byte-level decoder that a caller can supply for process
/// steps the runtime does not know.
pub trait CustomDecoder {
    fn decode(&self, bytes: &[u8]) -> Vec<u8>;
}

/// Relies on Rc::clone: the new handle refers to the same value.
#[verifier::external_body]
fn rc_clone<T>(rc: &Rc<T>) -> (r: Rc<T>)
    ensures
        r == *rc,
{
    Rc::clone(rc)
}

/// Relies on `<dyn Any>::downcast_ref`, which compares the handle's
/// concrete type with the requested one and yields the handle again only
/// when they are the same type.
#[verifier::external_body]
fn rc_downcast<T: 'static, U: 'static>(rc: &Rc<T>) -> (r: Option<Rc<U>>) {
    (rc as &dyn core::any::Any).downcast_ref::<Rc<U>>().cloned()
}

/// A non-owning back-reference to a parsed node. It may be empty, and it
/// upgrades to an owning handle only while some other owning handle to
/// the target still exists. The cell is opaque to verification: whether
/// an upgrade succeeds depends on runtime ownership, which lies outside
/// the model, so only the shape of each outcome is stated.
#[verifier::external_body]
#[verifier::reject_recursive_types(T)]
pub struct SharedType<T> {
    cell: std::cell::RefCell<std::rc::Weak<T>>,
}

impl<T> SharedType<T> {
    /// Relies on Rc::downgrade: a cell aimed at the given handle's
    /// target.
    #[verifier::external_body]
    pub fn new(rc: Rc<T>) -> (r: Self) {
        SharedType { cell: std::cell::RefCell::new(Rc::downgrade(&rc)) }
    }

    /// Relies on Weak::new: a cell that upgrades to nothing.
    #[verifier::external_body]
    pub fn empty() -> (r: Self) {
        SharedType { cell: std::cell::RefCell::new(std::rc::Weak::new()) }
    }

    /// Relies on Weak::strong_count: whether no owning handle to the
    /// target remains at this moment.
    #[verifier::external_body]
    pub fn is_empty(&self) -> (r: bool) {
        self.cell.borrow().strong_count() == 0
    }

    /// Relies on Weak::upgrade: an owning handle to the target while one
    /// still exists, `MissingParent` once the target is gone.
    #[verifier::external_body]
    pub fn get(&self) -> (r: KResult<OptRc<T>>)
        ensures
            r matches Ok(o) ==> !o.is_none_spec(),
            r matches Err(e) ==> e == KError::MissingParent,
    {
        match self.cell.borrow().upgrade() {
            Some(rc) => Ok(OptRc(Some(rc))),
            None => Err(KError::MissingParent),
        }
    }

    /// Relies on Weak::upgrade: the current target as an owning handle,
    /// or nothing once it is gone.
    #[verifier::external_body]
    pub fn get_value(&self) -> (r: Option<Rc<T>>) {
        self.cell.borrow().upgrade()
    }

    /// Relies on Rc::downgrade and Weak::new: re-aim the cell at the
    /// value a successful `rc` carries, or empty it on an error. A
    /// success must carry a handle: a cell cannot be aimed at nothing.
    #[verifier::external_body]
    pub fn set(&self, rc: KResult<OptRc<T>>)
        requires
            rc matches Ok(o) ==> !o.is_none_spec(),
    {
        *self.cell.borrow_mut() = match rc.ok() {
            Some(OptRc(Some(v))) => Rc::downgrade(&v),
            _ => std::rc::Weak::new(),
        }
    }
}

impl<T> Clone for SharedType<T> {
    /// Relies on Weak::clone: a second cell aimed at the same target.
    #[verifier::external_body]
    fn clone(&self) -> (r: Self) {
        SharedType { cell: std::cell::RefCell::new(self.cell.borrow().clone()) }
    }
}

/// An optional shared handle to a node. Unlike a bare `Rc`, its default
/// holds nothing, so node types of recursive shape can be built without
/// allocating a value of themselves first.
#[derive(Debug)]
pub struct OptRc<T>(Option<Rc<T>>);

impl<T> OptRc<T> {
    /// The handle this value carries, if any.
    pub closed spec fn inner(self) -> Option<Rc<T>> {
        self.0
    }

    pub open spec fn is_none_spec(self) -> bool {
        self.inner() is None
    }

    /// A handle carrying the same target as the given one, or nothing.
    pub fn new(orc: &Option<Rc<T>>) -> (r: Self)
        ensures
            r.inner() == *orc,
    {
        match orc {
            Some(rc) => OptRc(Some(rc_clone(rc))),
            None => OptRc(None),
        }
    }

    /// The carried handle; the value must not be empty.
    pub fn get(&self) -> (r: Rc<T>)
        requires
            !self.is_none_spec(),
        ensures
            Some(r) == self.inner(),
    {
        match &self.0 {
            Some(rc) => rc_clone(rc),
            None => vstd::pervasive::unreached(),
        }
    }

    pub fn get_value(&self) -> (r: &Option<Rc<T>>)
        ensures
            *r == self.inner(),
    {
        &self.0
    }

    pub fn is_none(&self) -> (r: bool)
        ensures
            r == self.is_none_spec(),
    {
        self.0.is_none()
    }

    /// Mutable access to the carried handle; the value must not be
    /// empty.
    pub fn get_mut(&mut self) -> (r: &mut Rc<T>)
        requires
            !old(self).is_none_spec(),
    {
        match &mut self.0 {
            Some(rc) => rc,
            None => vstd::pervasive::unreached(),
        }
    }
}

impl<T> From<Rc<T>> for OptRc<T> {
    fn from(v: Rc<T>) -> (r: Self) {
        OptRc(Some(v))
    }
}

impl<T> vstd::std_specs::convert::FromSpecImpl<Rc<T>> for OptRc<T> {
    closed spec fn obeys_from_spec() -> bool {
        true
    }

    closed spec fn from_spec(v: Rc<T>) -> Self {
        OptRc(Some(v))
    }
}

impl<T> From<T> for OptRc<T> {
    fn from(v: T) -> (r: Self) {
        OptRc(Some(Rc::new(v)))
    }
}

impl<T> vstd::std_specs::convert::FromSpecImpl<T> for OptRc<T> {
    closed spec fn obeys_from_spec() -> bool {
        true
    }

    closed spec fn from_spec(v: T) -> Self {
        OptRc(Some(Rc::new(v)))
    }
}

impl<T> Default for OptRc<T> {
    fn default() -> (r: Self)
        ensures
            r.is_none_spec(),
    {
        OptRc(None)
    }
}

impl<T> Clone for OptRc<T> {
    fn clone(&self) -> (r: Self)
        ensures
            r.inner() == self.inner(),
    {
        OptRc::new(self.get_value())
    }
}

/// The distinguished empty node type: it stands in for the root or
/// parent of a node that has none.
#[derive(Debug, Default, Copy, Clone, PartialEq)]
pub struct KStructUnit;

/// The contract every generated parser type satisfies: it names its root
/// and parent node types and parses itself from a stream, given
/// back-references to both.
pub trait KStruct: Default + Sized {
    type Root;
    type Parent;

    fn read(
        self_rc: &OptRc<Self>,
        io: &mut BytesReader,
        root: SharedType<Self::Root>,
        parent: SharedType<Self::Parent>,
    ) -> KResult<()>;
}

impl KStruct for KStructUnit {
    type Root = KStructUnit;

    type Parent = KStructUnit;

    fn read(
        _self_rc: &OptRc<Self>,
        _io: &mut BytesReader,
        _root: SharedType<Self::Root>,
        _parent: SharedType<Self::Parent>,
    ) -> KResult<()> {
        Ok(())
    }
}

/// Derive a back-reference for a fresh node: a caller-supplied one is
/// taken as given; otherwise the node's own handle is offered, which
/// works exactly when the node's concrete type is the expected one. A
/// failed self-reference is empty, or `CastError` where the caller
/// demanded it hold.
pub fn downcast<T: 'static, U: 'static>(
    opt_rc: Option<SharedType<U>>,
    t: &OptRc<T>,
    strict: bool,
) -> (r: KResult<SharedType<U>>)
    requires
        !t.is_none_spec(),
    ensures
        opt_rc matches Some(st) ==> (r matches Ok(v) && v == st),
        !strict ==> r is Ok,
        r matches Err(e) ==> e == KError::CastError && strict && opt_rc is None,
{
    match opt_rc {
        Some(st) => Ok(st),
        None => {
            let rc = t.get();
            match rc_downcast::<T, U>(&rc) {
                Some(u) => Ok(SharedType::new(u)),
                None => {
                    if strict {
                        Err(KError::CastError)
                    } else {
                        Ok(SharedType::empty())
                    }
                },
            }
        },
    }
}

/// Allocate a default node, derive its back-references, and run its
/// `read` routine; the owning handle is returned on success. A missing
/// root reference falls back to the node itself, which must then be of
/// the root type; a missing parent stays empty — the self-reference
/// fallback is for the root alone.
pub fn read_into<T: KStruct + 'static>(
    io: &mut BytesReader,
    root: Option<SharedType<T::Root>>,
    parent: Option<SharedType<T::Parent>>,
) -> (r: KResult<OptRc<T>>)
    where
        T::Root: 'static,
        T::Parent: 'static,
    ensures
        r matches Ok(t) ==> !t.is_none_spec(),
{
    let t: OptRc<T> = OptRc::from(T::default());
    let root = match downcast::<T, T::Root>(root, &t, true) {
        Ok(v) => v,
        Err(e) => {
            return Err(e);
        },
    };
    let parent = match parent {
        Some(p) => p,
        None => SharedType::empty(),
    };
    match T::read(&t, io, root, parent) {
        Ok(()) => Ok(t),
        Err(e) => Err(e),
    }
}

/// As `read_into`, but a caller-supplied initializer reshapes the fresh
/// node before its `read` routine runs, to inject values drawn from the
/// surrounding parse context.
pub fn read_into_with_init<T: KStruct + 'static, F: Fn(T) -> KResult<T>>(
    io: &mut BytesReader,
    root: Option<SharedType<T::Root>>,
    parent: Option<SharedType<T::Parent>>,
    init: F,
) -> (r: KResult<OptRc<T>>)
    where
        T::Root: 'static,
        T::Parent: 'static,
    requires
        forall|v: T| init.requires((v,)),
    ensures
        r matches Ok(t) ==> !t.is_none_spec(),
{
    let v = match init(T::default()) {
        Ok(v) => v,
        Err(e) => {
            return Err(e);
        },
    };
    let t: OptRc<T> = OptRc::from(v);
    let root = match downcast::<T, T::Root>(root, &t, true) {
        Ok(v) => v,
        Err(e) => {
            return Err(e);
        },
    };
    let parent = match parent {
        Some(p) => p,
        None => SharedType::empty(),
    };
    match T::read(&t, io, root, parent) {
        Ok(()) => Ok(t),
        Err(e) => Err(e),
    }
}

} // verus!
