use vstd::prelude::*;

use crate::wire::{MessageModel, ValueModel};

verus! {

/// One decoded value of the typed-value encoding. `String` and `Buffer`
/// distinguish a present (possibly empty) value from the explicit null
/// variants `StringNull` and `BufferNull`; a `Pointer` carries its rendered
/// `0x`-prefixed text; an `Hdata` carries its path name, the flattened
/// pointers of all rows, and each row's named fields in declared key order.
#[derive(PartialEq, Eq, Debug)]
pub enum WeechatData {
    Char(char),
    Int(i32),
    Long(i64),
    String(String),
    StringNull,
    Buffer(String),
    BufferNull,
    Pointer(String),
    Time(String),
    Array(Vec<WeechatData>),
    Hdata(String, Vec<WeechatData>, Vec<Vec<(String, WeechatData)>>),
}

impl WeechatData {
    /// The mathematical value this datum stands for.
    pub open spec fn dview(self) -> ValueModel
        decreases self,
    {
        match self {
            WeechatData::Char(c) => ValueModel::Char(c),
            WeechatData::Int(i) => ValueModel::Int(i),
            WeechatData::Long(l) => ValueModel::Long(l),
            WeechatData::String(s) => ValueModel::Str(s@),
            WeechatData::StringNull => ValueModel::StrNull,
            WeechatData::Buffer(s) => ValueModel::Buf(s@),
            WeechatData::BufferNull => ValueModel::BufNull,
            WeechatData::Pointer(s) => ValueModel::Ptr(s@),
            WeechatData::Time(s) => ValueModel::Time(s@),
            WeechatData::Array(v) => ValueModel::Array(dview_seq(v@)),
            WeechatData::Hdata(name, ptrs, rows) => ValueModel::Hdata(
                name@,
                dview_seq(ptrs@),
                dview_rows(rows@),
            ),
        }
    }
}

/// The models of a sequence of data, element by element.
pub open spec fn dview_seq(s: Seq<WeechatData>) -> Seq<ValueModel>
    decreases s,
{
    Seq::new(
        s.len(),
        |i: int|
            if 0 <= i < s.len() {
                s[i].dview()
            } else {
                arbitrary()
            },
    )
}

/// The model of one hdata row: each named field with its value's model.
pub open spec fn dview_row(r: Seq<(String, WeechatData)>) -> Seq<(Seq<char>, ValueModel)>
    decreases r,
{
    Seq::new(
        r.len(),
        |i: int|
            if 0 <= i < r.len() {
                (r[i].0@, r[i].1.dview())
            } else {
                arbitrary()
            },
    )
}

/// The models of an hdata's rows.
pub open spec fn dview_rows(rs: Seq<Vec<(String, WeechatData)>>) -> Seq<
    Seq<(Seq<char>, ValueModel)>,
>
    decreases rs,
{
    Seq::new(
        rs.len(),
        |i: int|
            if 0 <= i < rs.len() {
                dview_row(rs[i]@)
            } else {
                arbitrary()
            },
    )
}

/// One decoded message: its identifier and its ordered decoded values.
#[derive(Debug)]
pub struct WeechatMessage {
    pub id: String,
    pub data: Vec<WeechatData>,
}

impl WeechatMessage {
    /// The mathematical message this value stands for.
    pub open spec fn dview(self) -> MessageModel {
        MessageModel { id: self.id@, data: dview_seq(self.data@) }
    }
}

} // verus!
