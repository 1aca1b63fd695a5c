//! An in-memory table of typed columns and rows.
//!
//! The table engine lives in [`engine`]; the byte encoding used to persist a
//! table lives in [`codec`]. This file holds the value and schema model: the
//! scalar [`Type`] tags, the [`Data`] values that cells hold, and the named,
//! type-restricted [`Column`].

use vstd::prelude::*;

pub mod codec;
pub mod engine;

verus! {

/// An index of a row or column.
pub type Index = u32;

/// Identifies a column either by its human-facing name or by its position.
#[derive(Debug, PartialEq)]
pub enum Id {
    Name(String),
    Index(Index),
}

/// A single database operation, represented as inert data so that every
/// operation can be dispatched uniformly through [`engine::Db::query`].
#[derive(Debug)]
pub enum Instruction {
    DeleteColumn(Id),
    DeleteRow(Index),
    AppendRow(Vec<Data>),
    AppendColumn(String, Type),
    Fetch(Index, Index),
}

/// The scalar kinds a column can be restricted to.
#[derive(Clone, Copy, Debug, PartialEq, Eq, Structural)]
pub enum Type {
    Int32,
    Int64,
    Float32,
    Float64,
    Text,
}

/// A scalar value held by a table cell.
///
/// The two floating-point kinds carry the IEEE-754 bit pattern of the number
/// (as produced by `f32::to_bits` / `f64::to_bits`), so equality stays
/// structural and the engine itself never computes with floating point.
#[derive(Debug, PartialEq)]
pub enum Data {
    Int32(i32),
    Int64(i64),
    Float32(u32),
    Float64(u64),
    Text(String),
    Null,
}

/// The mathematical value of a [`Data`]: text as a sequence of characters.
#[verifier::ext_equal]
pub enum DataModel {
    Int32(i32),
    Int64(i64),
    Float32(u32),
    Float64(u64),
    Text(Seq<char>),
    Null,
}

impl View for Data {
    type V = DataModel;

    open spec fn view(&self) -> DataModel {
        match self {
            Data::Int32(x) => DataModel::Int32(*x),
            Data::Int64(x) => DataModel::Int64(*x),
            Data::Float32(bits) => DataModel::Float32(*bits),
            Data::Float64(bits) => DataModel::Float64(*bits),
            Data::Text(s) => DataModel::Text(s@),
            Data::Null => DataModel::Null,
        }
    }
}

/// The type a value projects to. The null marker deliberately projects to
/// [`Type::Text`]; this mirrors the stored encoding and is relied upon by
/// column type checking.
pub open spec fn type_of(d: DataModel) -> Type {
    match d {
        DataModel::Int32(_) => Type::Int32,
        DataModel::Int64(_) => Type::Int64,
        DataModel::Float32(_) => Type::Float32,
        DataModel::Float64(_) => Type::Float64,
        DataModel::Text(_) => Type::Text,
        DataModel::Null => Type::Text,
    }
}

impl Data {
    /// The type this value projects to; total and pure.
    pub fn get_type(&self) -> (t: Type)
        ensures
            t == type_of(self@),
    {
        match self {
            Data::Int32(_) => Type::Int32,
            Data::Int64(_) => Type::Int64,
            Data::Float32(_) => Type::Float32,
            Data::Float64(_) => Type::Float64,
            Data::Text(_) => Type::Text,
            Data::Null => Type::Text,
        }
    }
}

impl Clone for Data {
    fn clone(&self) -> (r: Self)
        ensures
            r == *self,
    {
        match self {
            Data::Int32(x) => Data::Int32(*x),
            Data::Int64(x) => Data::Int64(*x),
            Data::Float32(bits) => Data::Float32(*bits),
            Data::Float64(bits) => Data::Float64(*bits),
            Data::Text(s) => Data::Text(s.clone()),
            Data::Null => Data::Null,
        }
    }
}

/// The mathematical value of a [`Column`].
#[verifier::ext_equal]
pub struct ColumnModel {
    pub name: Seq<char>,
    pub ty: Type,
}

/// A named, single-type schema slot. Identity is positional; the name is used
/// only for name-based lookup and need not be unique.
#[derive(Debug, PartialEq)]
pub struct Column {
    pub name: String,
    pub ty_restriction: Type,
}

impl View for Column {
    type V = ColumnModel;

    open spec fn view(&self) -> ColumnModel {
        (ColumnModel { name: self.name@, ty: self.ty_restriction })
    }
}

impl Column {
    pub fn name(&self) -> (r: &str)
        ensures
            r@ == self@.name,
    {
        self.name.as_str()
    }

    pub fn ty_restriction(&self) -> (r: &Type)
        ensures
            *r == self@.ty,
    {
        &self.ty_restriction
    }

    pub fn new(name: String, ty_restriction: Type) -> (r: Self)
        ensures
            r@ == (ColumnModel { name: name@, ty: ty_restriction }),
    {
        Column { name, ty_restriction }
    }
}

} // verus!
