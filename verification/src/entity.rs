use vstd::prelude::*;

verus! {

/// A value that has an empty form to start from.
pub trait InitEmpty: Sized {
    /// Whether the value is the empty form.
    spec fn is_empty_value(v: Self) -> bool;

    fn init_empty() -> (res: Self)
        ensures
            Self::is_empty_value(res),
    ;
}

impl InitEmpty for bool {
    open spec fn is_empty_value(v: Self) -> bool {
        !v
    }

    fn init_empty() -> (res: Self)
        ensures
            !res,
    {
        false
    }
}

impl InitEmpty for u8 {
    open spec fn is_empty_value(v: Self) -> bool {
        v == 0
    }

    fn init_empty() -> (res: Self)
        ensures
            res == 0,
    {
        0
    }
}

impl InitEmpty for u16 {
    open spec fn is_empty_value(v: Self) -> bool {
        v == 0
    }

    fn init_empty() -> (res: Self)
        ensures
            res == 0,
    {
        0
    }
}

impl InitEmpty for u32 {
    open spec fn is_empty_value(v: Self) -> bool {
        v == 0
    }

    fn init_empty() -> (res: Self)
        ensures
            res == 0,
    {
        0
    }
}

impl InitEmpty for u64 {
    open spec fn is_empty_value(v: Self) -> bool {
        v == 0
    }

    fn init_empty() -> (res: Self)
        ensures
            res == 0,
    {
        0
    }
}

impl InitEmpty for String {
    open spec fn is_empty_value(v: Self) -> bool {
        v@.len() == 0
    }

    fn init_empty() -> (res: Self)
        ensures
            res@ == Seq::<char>::empty(),
    {
        String::new()
    }
}

/// A kind of record the pipeline stores: its element type, how many there are, and the name
/// of its file.
pub trait Entity {
    type T;

    const N: usize;

    const NAME: &'static str;
}

/// An entity stored under the namespace of the step that makes it.
pub trait NamespacedEntity: Entity {
    const NS: &'static str;
}

/// An entity whose records are found by a key.
pub trait MappableEntity: Entity {
    type KeyType;
}

/// An entity whose records vary in size, with the type that holds a record's size.
pub trait VariableSizeAttribute: Entity {
    type SizeType;
}

/// An attribute that points from records of one entity to records of another.
pub trait Link: Entity {
    type Source: Entity;

    type Target: Entity;
}

/// The attribute of an entity that a marker names.
pub trait MarkedAttribute<Marker>: Entity {
    type AttributeEntity: Entity;
}

/// An entity whose records are numbered from zero.
pub trait CompactEntity: MappableEntity<KeyType = usize> {

}

impl<T> CompactEntity for T where T: MappableEntity<KeyType = usize> {

}

/// An entity whose records are numbered, found by their big id.
pub trait NumberedEntity: MappableEntity<KeyType = u64> {
    type T;
}

/// A value stored as a fixed number of bytes.
pub trait ByteFixArrayInterface: Sized {
    const S: usize;

    fn to_fbytes(&self) -> Vec<u8>;

    fn from_fbytes(buf: &[u8]) -> Self;
}

/// A value stored as bytes.
pub trait ByteArrayInterface: Sized {
    /// The bytes can be read as a value without reading past their end.
    spec fn readable(buf: Seq<u8>) -> bool;

    fn to_bytes(&self) -> Vec<u8>;

    fn from_bytes(buf: &[u8]) -> Self
        requires
            Self::readable(buf@),
    ;
}

} // verus!
