use crate::digest::{digestible, is_digestible};
use crate::error::Error;
use crate::key::{key_of, Key};
use vstd::prelude::*;
use vstd::string::StringSliceAdditionalSpecFns;

verus! {

/// The byte that separates the words of a command line.
pub const SPACE: u8 = 32;

/// The words of `b`, split at every space; two spaces in a row give an empty
/// word, and the empty line is one empty word.
pub open spec fn fields(b: Seq<u8>) -> Seq<Seq<u8>>
    decreases b.len(),
{
    if b.len() == 0 {
        seq![Seq::<u8>::empty()]
    } else {
        let f = fields(b.drop_last());
        if b.last() == SPACE {
            f.push(Seq::<u8>::empty())
        } else {
            f.update(f.len() - 1, f.last().push(b.last()))
        }
    }
}

/// `PING` in ASCII.
pub open spec fn ping_word() -> Seq<u8> {
    seq![80u8, 73, 78, 71]
}

/// `STORE` in ASCII.
pub open spec fn store_word() -> Seq<u8> {
    seq![83u8, 84, 79, 82, 69]
}

/// `FIND_NODE` in ASCII.
pub open spec fn find_node_word() -> Seq<u8> {
    seq![70u8, 73, 78, 68, 95, 78, 79, 68, 69]
}

/// `FIND_VALUE` in ASCII.
pub open spec fn find_value_word() -> Seq<u8> {
    seq![70u8, 73, 78, 68, 95, 86, 65, 76, 85, 69]
}

/// There is at least one word, and none is longer than the line.
pub proof fn lemma_fields_len(b: Seq<u8>)
    ensures
        fields(b).len() >= 1,
        forall|j: int| 0 <= j < fields(b).len() ==> (#[trigger] fields(b)[j]).len() <= b.len(),
    decreases b.len(),
{
    if b.len() > 0 {
        lemma_fields_len(b.drop_last());
    }
}

/// The commands of the line-oriented text dialect.
#[derive(Clone, Copy, Debug, PartialEq, Eq, Structural)]
pub enum Method {
    Ping,
    Store,
    FindNode,
    FindValue,
}

/// A request of the line-oriented text dialect.
#[derive(Debug, PartialEq, Eq)]
pub enum Command {
    /// `PING`: checks that the node is online; takes no arguments.
    Ping,
    /// `STORE <key> <value>`: stores the value under the key that the first
    /// argument hashes to.
    Store(Key, Vec<u8>),
    /// `FIND_NODE <id>`: asks for the peers closest to the id that the argument
    /// hashes to.
    FindNode(Key),
    /// `FIND_VALUE <key>`: asks for the value under the key that the argument
    /// hashes to.
    FindValue(Key),
}

/// Whether `a` and `b` hold the same bytes.
fn same_bytes(a: &[u8], b: &[u8]) -> (r: bool)
    ensures
        r == (a@ == b@),
{
    if a.len() != b.len() {
        return false;
    }
    let mut i: usize = 0;
    while i < a.len()
        invariant
            i <= a@.len(),
            a@.len() == b@.len(),
            forall|j: int| 0 <= j < i ==> a@[j] == b@[j],
        decreases a@.len() - i,
    {
        if a[i] != b[i] {
            return false;
        }
        i = i + 1;
    }
    assert(a@ =~= b@);
    true
}

/// The words of `b`, split at every space.
fn split_fields(b: &[u8]) -> (r: Vec<Vec<u8>>)
    ensures
        r@.map_values(|v: Vec<u8>| v@) == fields(b@),
{
    let mut done: Vec<Vec<u8>> = Vec::new();
    let mut cur: Vec<u8> = Vec::new();
    let mut i: usize = 0;
    assert(b@.subrange(0, 0) =~= Seq::<u8>::empty());
    assert(done@.map_values(|v: Vec<u8>| v@).push(cur@) =~= fields(b@.subrange(0, 0)));
    while i < b.len()
        invariant
            i <= b@.len(),
            done@.map_values(|v: Vec<u8>| v@).push(cur@) == fields(b@.subrange(0, i as int)),
        decreases b@.len() - i,
    {
        let ghost prev = b@.subrange(0, i as int);
        assert(b@.subrange(0, i + 1).drop_last() =~= prev);
        proof {
            lemma_fields_len(prev);
        }
        if b[i] == SPACE {
            done.push(cur);
            cur = Vec::new();
            assert(done@.map_values(|v: Vec<u8>| v@).push(cur@) =~= fields(
                b@.subrange(0, i + 1),
            ));
        } else {
            let ghost old_cur = cur@;
            cur.push(b[i]);
            assert(done@.map_values(|v: Vec<u8>| v@).push(cur@) =~= fields(
                b@.subrange(0, i + 1),
            ));
        }
        i = i + 1;
    }
    assert(b@.subrange(0, b@.len() as int) =~= b@);
    done.push(cur);
    assert(done@.map_values(|v: Vec<u8>| v@) =~= fields(b@));
    done
}

impl Command {
    /// Parses one line of the text dialect: words separated by single spaces,
    /// the first naming the command.
    pub fn parse(s: &str) -> (r: Result<Command, Error>)
        ensures
            !digestible(s.spec_bytes().len()) ==> r == Err::<Command, Error>(
                Error::InputTooLong(s.spec_bytes().len() as usize),
            ),
            digestible(s.spec_bytes().len()) ==> {
                let f = fields(s.spec_bytes());
                let n = f.len();
                if f[0] == ping_word() {
                    if n == 1 {
                        r == Ok::<Command, Error>(Command::Ping)
                    } else {
                        r == Err::<Command, Error>(
                            Error::InvalidArgumentLength(Method::Ping, 0, (n - 1) as usize),
                        )
                    }
                } else if f[0] == store_word() {
                    if n == 3 {
                        r matches Ok(Command::Store(k, v)) && k@ == key_of(f[1]) && v@ == f[2]
                    } else {
                        r == Err::<Command, Error>(
                            Error::InvalidArgumentLength(Method::Store, 2, (n - 1) as usize),
                        )
                    }
                } else if f[0] == find_node_word() {
                    if n == 2 {
                        r matches Ok(Command::FindNode(k)) && k@ == key_of(f[1])
                    } else {
                        r == Err::<Command, Error>(
                            Error::InvalidArgumentLength(Method::FindNode, 1, (n - 1) as usize),
                        )
                    }
                } else if f[0] == find_value_word() {
                    if n == 2 {
                        r matches Ok(Command::FindValue(k)) && k@ == key_of(f[1])
                    } else {
                        r == Err::<Command, Error>(
                            Error::InvalidArgumentLength(Method::FindValue, 1, (n - 1) as usize),
                        )
                    }
                } else {
                    r matches Err(Error::CommandParse(line)) && line@ == s@
                }
            },
    {
        let b = s.as_bytes();
        if !is_digestible(b.len()) {
            return Err(Error::InputTooLong(b.len()));
        }
        let f = split_fields(b);
        proof {
            lemma_fields_len(b@);
            assert(f@.len() == fields(b@).len());
            assert forall|j: int| 0 <= j < f@.len() implies #[trigger] f@[j]@ == fields(b@)[j] by {
                assert(f@.map_values(|v: Vec<u8>| v@)[j] == f@[j]@);
            }
        }
        let n = f.len();
        let ping: [u8; 4] = [80, 73, 78, 71];
        let store: [u8; 5] = [83, 84, 79, 82, 69];
        let find_node: [u8; 9] = [70, 73, 78, 68, 95, 78, 79, 68, 69];
        let find_value: [u8; 10] = [70, 73, 78, 68, 95, 86, 65, 76, 85, 69];
        assert(ping@ =~= ping_word());
        assert(store@ =~= store_word());
        assert(find_node@ =~= find_node_word());
        assert(find_value@ =~= find_value_word());
        let word = f[0].as_slice();
        if same_bytes(word, ping.as_slice()) {
            if n == 1 {
                Ok(Command::Ping)
            } else {
                Err(Error::InvalidArgumentLength(Method::Ping, 0, n - 1))
            }
        } else if same_bytes(word, store.as_slice()) {
            if n == 3 {
                let k = Key::hash(f[1].as_slice());
                let v = f[2].clone();
                Ok(Command::Store(k, v))
            } else {
                Err(Error::InvalidArgumentLength(Method::Store, 2, n - 1))
            }
        } else if same_bytes(word, find_node.as_slice()) {
            if n == 2 {
                Ok(Command::FindNode(Key::hash(f[1].as_slice())))
            } else {
                Err(Error::InvalidArgumentLength(Method::FindNode, 1, n - 1))
            }
        } else if same_bytes(word, find_value.as_slice()) {
            if n == 2 {
                Ok(Command::FindValue(Key::hash(f[1].as_slice())))
            } else {
                Err(Error::InvalidArgumentLength(Method::FindValue, 1, n - 1))
            }
        } else {
            Err(Error::CommandParse(s.to_owned()))
        }
    }
}

impl core::str::FromStr for Command {
    type Err = Error;

    fn from_str(s: &str) -> Result<Command, Error> {
        Command::parse(s)
    }
}

} // verus!
