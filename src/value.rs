use vstd::prelude::*;

verus! {

/// The mathematical model of a decoded Bencode value.
pub enum Bencode {
    Int(int),
    Bytes(Seq<u8>),
    List(Seq<Bencode>),
    Dict(Seq<(Seq<u8>, Bencode)>),
}

/// A decoded Bencode value. Dictionary entries keep the order in which they
/// were read; keys are raw bytes.
#[derive(Debug)]
pub enum Value {
    Integer(i64),
    ByteString(Vec<u8>),
    List(Vec<Value>),
    Dictionary(Vec<(Vec<u8>, Value)>),
}

impl Value {
    pub open spec fn model(&self) -> Bencode
        decreases self,
    {
        match self {
            Value::Integer(n) => Bencode::Int(*n as int),
            Value::ByteString(b) => Bencode::Bytes(b@),
            Value::List(items) => Bencode::List(
                Seq::new(
                    items.len() as nat,
                    |i: int|
                        if 0 <= i < items.len() {
                            items[i].model()
                        } else {
                            Bencode::Int(0)
                        },
                ),
            ),
            Value::Dictionary(entries) => Bencode::Dict(
                Seq::new(
                    entries.len() as nat,
                    |i: int|
                        if 0 <= i < entries.len() {
                            (entries[i].0@, entries[i].1.model())
                        } else {
                            (Seq::empty(), Bencode::Int(0))
                        },
                ),
            ),
        }
    }
}

/// The keys of a sequence of dictionary entries.
pub open spec fn has_key(entries: Seq<(Seq<u8>, Bencode)>, k: Seq<u8>) -> bool {
    exists|i: int| 0 <= i < entries.len() && #[trigger] entries[i].0 == k
}

/// The models of dictionary entries.
pub open spec fn entries_model(entries: Seq<(Vec<u8>, Value)>) -> Seq<(Seq<u8>, Bencode)> {
    Seq::new(entries.len(), |i: int| (entries[i].0@, entries[i].1.model()))
}

/// The models of list items.
pub open spec fn items_model(items: Seq<Value>) -> Seq<Bencode> {
    Seq::new(items.len(), |i: int| items[i].model())
}

/// A list's model is the sequence of its items' models.
pub proof fn lemma_list_model(v: &Value)
    requires
        v is List,
    ensures
        v.model() == Bencode::List(items_model(v->List_0@)),
{
    assert(v.model()->List_0 =~= items_model(v->List_0@));
}

/// A dictionary's model is the sequence of its entries' models.
pub proof fn lemma_dict_model(v: &Value)
    requires
        v is Dictionary,
    ensures
        v.model() == Bencode::Dict(entries_model(v->Dictionary_0@)),
{
    assert(v.model()->Dict_0 =~= entries_model(v->Dictionary_0@));
}

} // verus!
