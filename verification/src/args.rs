//! Argument maps: the body of a command, as an ordered list of named values.

use vstd::prelude::*;
use crate::codec::{fits_str, str_fits, text_bytes};
use crate::wire::{
    array_len_bytes, bin_bytes, bool_bytes, map_len_bytes, uint_bytes, write_array_len, write_bin,
    write_bool, write_map_len, write_str, write_uint,
};

verus! {

/// A value that an argument can carry.
#[derive(Debug, Clone, PartialEq, Eq)]
pub enum ArgValue {
    Bool(bool),
    UInt(u64),
    Str(String),
    /// Raw bytes, such as the payload of an event.
    Bytes(Vec<u8>),
    /// A list of strings, such as the addresses to join.
    StrList(Vec<String>),
    /// Strings by name, in the order given, such as the tags to filter by.
    StrMap(Vec<(String, String)>),
}

/// An argument value as a mathematical value.
pub enum ValueModel {
    Bool(bool),
    UInt(u64),
    Str(Seq<char>),
    Bytes(Seq<u8>),
    StrList(Seq<Seq<char>>),
    StrMap(Seq<(Seq<char>, Seq<char>)>),
}

/// The pairs of a string map, each string by its characters.
pub open spec fn pairs_of(pairs: Seq<(String, String)>) -> Seq<(Seq<char>, Seq<char>)> {
    pairs.map_values(|p: (String, String)| (p.0@, p.1@))
}

/// True when both strings of a pair can be written.
pub open spec fn pair_fits(p: (Seq<char>, Seq<char>)) -> bool {
    fits_str(p.0) && fits_str(p.1)
}

/// A pair on the wire: the name, then the value.
pub open spec fn pair_bytes(p: (Seq<char>, Seq<char>)) -> Seq<u8> {
    text_bytes(p.0) + text_bytes(p.1)
}

/// The pairs of a string map on the wire, one after the other.
pub open spec fn pairs_bytes(pairs: Seq<(Seq<char>, Seq<char>)>) -> Seq<u8>
    decreases pairs.len(),
{
    if pairs.len() == 0 {
        Seq::empty()
    } else {
        pair_bytes(pairs[0]) + pairs_bytes(pairs.drop_first())
    }
}

/// Appending a pair to a string map appends its bytes.
pub proof fn lemma_pairs_push(pairs: Seq<(Seq<char>, Seq<char>)>, p: (Seq<char>, Seq<char>))
    ensures
        pairs_bytes(pairs.push(p)) == pairs_bytes(pairs) + pair_bytes(p),
    decreases pairs.len(),
{
    if pairs.len() == 0 {
        assert(pairs.push(p).drop_first() =~= Seq::<(Seq<char>, Seq<char>)>::empty());
        assert(pairs_bytes(pairs.push(p).drop_first()) =~= Seq::<u8>::empty());
        assert(pairs.push(p)[0] == p);
        assert(pairs_bytes(pairs.push(p)) =~= pairs_bytes(pairs) + pair_bytes(p));
    } else {
        assert(pairs.push(p).drop_first() =~= pairs.drop_first().push(p));
        lemma_pairs_push(pairs.drop_first(), p);
        assert(pairs_bytes(pairs.push(p)) =~= pairs_bytes(pairs) + pair_bytes(p));
    }
}

/// The strings of a list, each by its characters.
pub open spec fn texts_of(list: Seq<String>) -> Seq<Seq<char>> {
    list.map_values(|s: String| s@)
}

/// The strings of a list on the wire, one after the other.
pub open spec fn texts_bytes(list: Seq<Seq<char>>) -> Seq<u8>
    decreases list.len(),
{
    if list.len() == 0 {
        Seq::empty()
    } else {
        text_bytes(list[0]) + texts_bytes(list.drop_first())
    }
}

/// Appending a string to a list appends its bytes.
pub proof fn lemma_texts_push(list: Seq<Seq<char>>, s: Seq<char>)
    ensures
        texts_bytes(list.push(s)) == texts_bytes(list) + text_bytes(s),
    decreases list.len(),
{
    if list.len() == 0 {
        assert(list.push(s).drop_first() =~= Seq::<Seq<char>>::empty());
        assert(texts_bytes(list.push(s).drop_first()) =~= Seq::<u8>::empty());
        assert(list.push(s)[0] == s);
        assert(texts_bytes(list.push(s)) =~= texts_bytes(list) + text_bytes(s));
    } else {
        assert(list.push(s).drop_first() =~= list.drop_first().push(s));
        lemma_texts_push(list.drop_first(), s);
        assert(texts_bytes(list.push(s)) =~= texts_bytes(list) + text_bytes(s));
    }
}

/// A named argument as a mathematical value.
pub struct ArgModel {
    pub key: Seq<char>,
    pub value: ValueModel,
}

impl View for ArgValue {
    type V = ValueModel;

    open spec fn view(&self) -> ValueModel {
        match self {
            ArgValue::Bool(b) => ValueModel::Bool(*b),
            ArgValue::UInt(n) => ValueModel::UInt(*n),
            ArgValue::Str(s) => ValueModel::Str(s@),
            ArgValue::Bytes(d) => ValueModel::Bytes(d@),
            ArgValue::StrList(l) => ValueModel::StrList(texts_of(l@)),
            ArgValue::StrMap(m) => ValueModel::StrMap(pairs_of(m@)),
        }
    }
}

/// A named argument.
#[derive(Debug, Clone, PartialEq, Eq)]
pub struct Arg {
    pub key: String,
    pub value: ArgValue,
}

impl View for Arg {
    type V = ArgModel;

    open spec fn view(&self) -> ArgModel {
        ArgModel { key: self.key@, value: self.value@ }
    }
}

impl ValueModel {
    /// True when the value can be written.
    pub open spec fn encodable(self) -> bool {
        match self {
            ValueModel::Str(s) => fits_str(s),
            ValueModel::Bytes(d) => d.len() <= u32::MAX,
            ValueModel::StrList(l) => {
                &&& l.len() <= u32::MAX
                &&& forall|i: int| 0 <= i < l.len() ==> fits_str(#[trigger] l[i])
            },
            ValueModel::StrMap(m) => {
                &&& m.len() <= u32::MAX
                &&& forall|i: int| 0 <= i < m.len() ==> pair_fits(#[trigger] m[i])
            },
            _ => true,
        }
    }

    /// The value on the wire.
    pub open spec fn bytes(self) -> Seq<u8> {
        match self {
            ValueModel::Bool(b) => bool_bytes(b),
            ValueModel::UInt(n) => uint_bytes(n),
            ValueModel::Str(s) => text_bytes(s),
            ValueModel::Bytes(d) => bin_bytes(d),
            ValueModel::StrList(l) => array_len_bytes(l.len() as u32) + texts_bytes(l),
            ValueModel::StrMap(m) => map_len_bytes(m.len() as u32) + pairs_bytes(m),
        }
    }
}

impl ArgModel {
    /// True when key and value can both be written.
    pub open spec fn encodable(self) -> bool {
        fits_str(self.key) && self.value.encodable()
    }

    /// The argument on the wire: its key as a string, then its value.
    pub open spec fn bytes(self) -> Seq<u8> {
        text_bytes(self.key) + self.value.bytes()
    }
}

/// The entries of a map on the wire, one after the other.
pub open spec fn entries_bytes(args: Seq<ArgModel>) -> Seq<u8>
    decreases args.len(),
{
    if args.len() == 0 {
        Seq::empty()
    } else {
        args[0].bytes() + entries_bytes(args.drop_first())
    }
}

/// True when a map of these arguments can be written: its size fits the map
/// header and every entry can be written.
pub open spec fn args_encodable(args: Seq<ArgModel>) -> bool {
    &&& args.len() <= u32::MAX
    &&& forall|i: int| 0 <= i < args.len() ==> (#[trigger] args[i]).encodable()
}

/// An argument map on the wire: the map header, then the entries in order.
pub open spec fn args_bytes(args: Seq<ArgModel>) -> Seq<u8> {
    map_len_bytes(args.len() as u32) + entries_bytes(args)
}

/// Appending an argument appends its bytes.
pub proof fn lemma_entries_push(args: Seq<ArgModel>, arg: ArgModel)
    ensures
        entries_bytes(args.push(arg)) == entries_bytes(args) + arg.bytes(),
    decreases args.len(),
{
    if args.len() == 0 {
        assert(args.push(arg).drop_first() =~= Seq::<ArgModel>::empty());
        assert(entries_bytes(args.push(arg).drop_first()) =~= Seq::<u8>::empty());
        assert(args.push(arg)[0] == arg);
        assert(entries_bytes(args.push(arg)) =~= entries_bytes(args) + arg.bytes());
    } else {
        assert(args.push(arg).drop_first() =~= args.drop_first().push(arg));
        lemma_entries_push(args.drop_first(), arg);
        assert(entries_bytes(args.push(arg)) =~= entries_bytes(args) + arg.bytes());
    }
}

impl ArgValue {
    /// Tells whether the value can be written.
    pub fn is_encodable(&self) -> (ok: bool)
        ensures
            ok == self@.encodable(),
    {
        match self {
            ArgValue::Str(s) => str_fits(s.as_str()),
            ArgValue::Bytes(d) => d.len() <= 0xffff_ffff,
            ArgValue::StrList(l) => {
                if l.len() > 0xffff_ffff {
                    return false;
                }
                let mut i: usize = 0;
                while i < l.len()
                    invariant
                        i <= l@.len(),
                        l@.len() <= u32::MAX,
                        self@ == ValueModel::StrList(texts_of(l@)),
                        forall|j: int| 0 <= j < i ==> fits_str(#[trigger] texts_of(l@)[j]),
                    decreases l@.len() - i,
                {
                    assert(texts_of(l@)[i as int] == l@[i as int]@);
                    if !str_fits(l[i].as_str()) {
                        assert(!fits_str(texts_of(l@)[i as int]));
                        return false;
                    }
                    i = i + 1;
                }
                true
            },
            ArgValue::StrMap(m) => {
                if m.len() > 0xffff_ffff {
                    return false;
                }
                let mut i: usize = 0;
                while i < m.len()
                    invariant
                        i <= m@.len(),
                        m@.len() <= u32::MAX,
                        self@ == ValueModel::StrMap(pairs_of(m@)),
                        forall|j: int| 0 <= j < i ==> pair_fits(#[trigger] pairs_of(m@)[j]),
                    decreases m@.len() - i,
                {
                    assert(pairs_of(m@)[i as int] == (m@[i as int].0@, m@[i as int].1@));
                    if !str_fits(m[i].0.as_str()) || !str_fits(m[i].1.as_str()) {
                        assert(!pair_fits(pairs_of(m@)[i as int]));
                        return false;
                    }
                    i = i + 1;
                }
                true
            },
            _ => true,
        }
    }

    /// Appends the value to `buf`.
    pub fn write(&self, buf: &mut Vec<u8>)
        requires
            self@.encodable(),
        ensures
            final(buf)@ == old(buf)@ + self@.bytes(),
    {
        match self {
            ArgValue::Bool(b) => write_bool(buf, *b),
            ArgValue::UInt(n) => write_uint(buf, *n),
            ArgValue::Str(s) => write_str(buf, s.as_str()),
            ArgValue::Bytes(d) => write_bin(buf, d.as_slice()),
            ArgValue::StrList(l) => {
                let n = l.len();
                let ghost list = texts_of(l@);
                write_array_len(buf, n as u32);
                let mut i: usize = 0;
                assert(list.take(0) =~= Seq::<Seq<char>>::empty());
                while i < n
                    invariant
                        i <= n,
                        n == l@.len(),
                        n <= u32::MAX,
                        list == texts_of(l@),
                        forall|j: int| 0 <= j < list.len() ==> fits_str(#[trigger] list[j]),
                        buf@ == old(buf)@ + array_len_bytes(n as u32) + texts_bytes(
                            list.take(i as int),
                        ),
                    decreases n - i,
                {
                    assert(list[i as int] == l@[i as int]@);
                    write_str(buf, l[i].as_str());
                    proof {
                        lemma_texts_push(list.take(i as int), list[i as int]);
                        assert(list.take(i + 1) =~= list.take(i as int).push(list[i as int]));
                        assert(buf@ =~= old(buf)@ + array_len_bytes(n as u32) + texts_bytes(
                            list.take(i + 1),
                        ));
                    }
                    i = i + 1;
                }
                assert(list.take(n as int) =~= list);
                assert(buf@ =~= old(buf)@ + (array_len_bytes(n as u32) + texts_bytes(list)));
            },
            ArgValue::StrMap(m) => {
                let n = m.len();
                let ghost pairs = pairs_of(m@);
                write_map_len(buf, n as u32);
                let mut i: usize = 0;
                assert(pairs.take(0) =~= Seq::<(Seq<char>, Seq<char>)>::empty());
                while i < n
                    invariant
                        i <= n,
                        n == m@.len(),
                        n <= u32::MAX,
                        pairs == pairs_of(m@),
                        forall|j: int| 0 <= j < pairs.len() ==> pair_fits(#[trigger] pairs[j]),
                        buf@ == old(buf)@ + map_len_bytes(n as u32) + pairs_bytes(
                            pairs.take(i as int),
                        ),
                    decreases n - i,
                {
                    assert(pairs[i as int] == (m@[i as int].0@, m@[i as int].1@));
                    assert(pair_fits(pairs[i as int]));
                    write_str(buf, m[i].0.as_str());
                    write_str(buf, m[i].1.as_str());
                    proof {
                        lemma_pairs_push(pairs.take(i as int), pairs[i as int]);
                        assert(pairs.take(i + 1) =~= pairs.take(i as int).push(pairs[i as int]));
                        assert(buf@ =~= old(buf)@ + map_len_bytes(n as u32) + pairs_bytes(
                            pairs.take(i + 1),
                        ));
                    }
                    i = i + 1;
                }
                assert(pairs.take(n as int) =~= pairs);
                assert(buf@ =~= old(buf)@ + (map_len_bytes(n as u32) + pairs_bytes(pairs)));
            },
        }
    }
}

/// The arguments of one command, in the order they were declared.
#[derive(Debug, Clone, PartialEq, Eq)]
pub struct ArgMap {
    pub entries: Vec<Arg>,
}

impl View for ArgMap {
    type V = Seq<ArgModel>;

    open spec fn view(&self) -> Seq<ArgModel> {
        self.entries@.map_values(|a: Arg| a@)
    }
}

impl ArgMap {
    /// A map without arguments.
    pub fn new() -> (m: Self)
        ensures
            m@ == Seq::<ArgModel>::empty(),
    {
        let m = ArgMap { entries: Vec::new() };
        assert(m@ =~= Seq::<ArgModel>::empty());
        m
    }

    /// Declares an argument that is present.
    pub fn insert(&mut self, key: &str, value: ArgValue)
        ensures
            final(self)@ == old(self)@.push(ArgModel { key: key@, value: value@ }),
    {
        self.entries.push(Arg { key: key.to_owned(), value });
        assert(self@ =~= old(self)@.push(ArgModel { key: key@, value: value@ }));
    }

    /// Declares an argument that may be absent. An absent argument leaves no
    /// trace in the map.
    pub fn insert_opt(&mut self, key: &str, value: Option<ArgValue>)
        ensures
            final(self)@ == match value {
                Some(v) => old(self)@.push(ArgModel { key: key@, value: v@ }),
                None => old(self)@,
            },
    {
        match value {
            Some(v) => self.insert(key, v),
            None => {},
        }
    }

    /// Encodes the map. `None` when the map has too many entries or holds a
    /// string too long for the format.
    pub fn encode(&self) -> (out: Option<Vec<u8>>)
        ensures
            out is Some <==> args_encodable(self@),
            out matches Some(b) ==> b@ == args_bytes(self@),
    {
        let n = self.entries.len();
        if n > 0xffff_ffff {
            return None;
        }
        let mut buf: Vec<u8> = Vec::new();
        write_map_len(&mut buf, n as u32);
        let mut i: usize = 0;
        while i < n
            invariant
                i <= n,
                n == self.entries@.len(),
                n <= u32::MAX,
                buf@ == map_len_bytes(n as u32) + entries_bytes(self@.take(i as int)),
                forall|j: int| 0 <= j < i ==> (#[trigger] self@[j]).encodable(),
            decreases n - i,
        {
            let arg = &self.entries[i];
            assert(self@[i as int] == arg@);
            if !str_fits(arg.key.as_str()) || !arg.value.is_encodable() {
                return None;
            }
            write_str(&mut buf, arg.key.as_str());
            arg.value.write(&mut buf);
            proof {
                lemma_entries_push(self@.take(i as int), arg@);
                assert(self@.take(i as int + 1) =~= self@.take(i as int).push(arg@));
                assert(buf@ =~= map_len_bytes(n as u32) + entries_bytes(self@.take(i as int + 1)));
            }
            i = i + 1;
        }
        assert(self@.take(n as int) =~= self@);
        Some(buf)
    }
}

} // verus!
