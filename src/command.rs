//! The command model: which request a decoded frame is.
use vstd::prelude::*;
use crate::frame::{Value, ValueView, views, copy_range};

verus! {

/// A recognised request.
#[derive(Debug, PartialEq, Eq)]
pub enum Command {
    Ping,
    Echo(Vec<u8>),
    Get(Vec<u8>),
    /// Key, value, and the option tokens that follow them (such as an
    /// expiry in milliseconds). The options are carried, not applied.
    Store(Vec<u8>, Vec<u8>, Vec<Vec<u8>>),
}

pub enum CommandView {
    Ping,
    Echo(Seq<u8>),
    Get(Seq<u8>),
    Store(Seq<u8>, Seq<u8>, Seq<Seq<u8>>),
}

pub open spec fn byte_views(v: Seq<Vec<u8>>) -> Seq<Seq<u8>> {
    v.map_values(|x: Vec<u8>| x@)
}

impl View for Command {
    type V = CommandView;

    open spec fn view(&self) -> CommandView {
        match self {
            Command::Ping => CommandView::Ping,
            Command::Echo(s) => CommandView::Echo(s@),
            Command::Get(k) => CommandView::Get(k@),
            Command::Store(k, v, m) => CommandView::Store(k@, v@, byte_views(m@)),
        }
    }
}

/// Why a frame is not a command.
#[derive(Debug, Clone, Copy, PartialEq, Eq, Structural)]
pub enum CommandError {
    /// An element of the frame is not a bulk string.
    WrongType,
    /// The name is not known, or the number of arguments is wrong for it.
    Unknown,
}

/// ASCII lower case of one byte.
pub open spec fn lower(b: u8) -> u8 {
    if 65 <= b <= 90 { (b + 32) as u8 } else { b }
}

/// `s` spells the lower-case name `name`, ignoring ASCII case.
pub open spec fn names(s: Seq<u8>, name: Seq<u8>) -> bool {
    s.len() == name.len() && forall|i: int| 0 <= i < s.len() ==> lower(#[trigger] s[i]) == name[i]
}

pub open spec fn ping_name() -> Seq<u8> { seq![112u8, 105u8, 110u8, 103u8] }

pub open spec fn echo_name() -> Seq<u8> { seq![101u8, 99u8, 104u8, 111u8] }

pub open spec fn get_name() -> Seq<u8> { seq![103u8, 101u8, 116u8] }

pub open spec fn set_name() -> Seq<u8> { seq![115u8, 101u8, 116u8] }

/// The bytes of each element, when every element is a bulk string.
pub open spec fn args_of(vals: Seq<ValueView>) -> Option<Seq<Seq<u8>>> {
    if forall|i: int| 0 <= i < vals.len() ==> #[trigger] vals[i] is Bulk {
        Some(vals.map_values(|v: ValueView| v->Bulk_0))
    } else {
        None
    }
}

/// The command that a name followed by its arguments stands for.
pub open spec fn command_of(items: Seq<Seq<u8>>) -> Option<CommandView> {
    if items.len() == 0 {
        None
    } else {
        let name = items[0];
        let n = items.len();
        if names(name, ping_name()) && n == 1 {
            Some(CommandView::Ping)
        } else if names(name, echo_name()) && n == 2 {
            Some(CommandView::Echo(items[1]))
        } else if names(name, get_name()) && n == 2 {
            Some(CommandView::Get(items[1]))
        } else if names(name, set_name()) && n >= 3 {
            Some(CommandView::Store(items[1], items[2], items.subrange(3, n as int)))
        } else {
            None
        }
    }
}

fn is_bulk(v: &Value) -> (r: bool)
    ensures
        r == v@ is Bulk,
{
    match v {
        Value::Bulk(_) => true,
        _ => false,
    }
}

fn bulk_copy(v: &Value) -> (r: Vec<u8>)
    requires
        v@ is Bulk,
    ensures
        v@ == ValueView::Bulk(r@),
{
    match v {
        Value::Bulk(b) => {
            let r = copy_range(b.as_slice(), 0, b.len());
            assert(r@ =~= b@);
            r
        },
        _ => Vec::new(),
    }
}

fn lower_byte(b: u8) -> (r: u8)
    ensures
        r == lower(b),
{
    if 65 <= b && b <= 90 { b + 32 } else { b }
}

fn has_name(v: &Value, name: &[u8]) -> (r: bool)
    requires
        v@ is Bulk,
    ensures
        r == names(v@->Bulk_0, name@),
{
    match v {
        Value::Bulk(s) => {
            assert(v@->Bulk_0 == s@);
            if s.len() != name.len() {
                return false;
            }
            let mut i: usize = 0;
            while i < s.len()
                invariant
                    v@->Bulk_0 == s@,
                    s@.len() == name@.len(),
                    i <= s@.len(),
                    forall|j: int| 0 <= j < i ==> lower(#[trigger] s@[j]) == name@[j],
                decreases s@.len() - i,
            {
                if lower_byte(s[i]) != name[i] {
                    assert(lower(s@[i as int]) != name@[i as int]);
                    return false;
                }
                i = i + 1;
            }
            assert(names(s@, name@));
            true
        },
        _ => false,
    }
}

/// Classifies a decoded frame. The name is matched without regard to ASCII
/// case; `PING` takes no argument, `ECHO` and `GET` one, `SET` a key, a
/// value and any number of option tokens.
pub fn parse_command(frame: &[Value]) -> (r: Result<Command, CommandError>)
    ensures
        match r {
            Ok(c) => match args_of(views(frame@)) {
                Some(items) => command_of(items) == Some(c@),
                None => false,
            },
            Err(CommandError::WrongType) => args_of(views(frame@)) is None,
            Err(CommandError::Unknown) => match args_of(views(frame@)) {
                Some(items) => command_of(items) is None,
                None => false,
            },
        },
{
    let ghost vals = views(frame@);
    let mut i: usize = 0;
    while i < frame.len()
        invariant
            i <= frame@.len(),
            vals == views(frame@),
            forall|j: int| 0 <= j < i ==> #[trigger] vals[j] is Bulk,
        decreases frame@.len() - i,
    {
        if !is_bulk(&frame[i]) {
            assert(!(vals[i as int] is Bulk));
            return Err(CommandError::WrongType);
        }
        i = i + 1;
    }
    let ghost items = vals.map_values(|v: ValueView| v->Bulk_0);
    assert(args_of(vals) == Some(items));
    let n = frame.len();
    if n == 0 {
        return Err(CommandError::Unknown);
    }
    assert(frame@[0]@ == vals[0]);
    let ping: Vec<u8> = vec![112, 105, 110, 103];
    let echo: Vec<u8> = vec![101, 99, 104, 111];
    let get: Vec<u8> = vec![103, 101, 116];
    let set: Vec<u8> = vec![115, 101, 116];
    assert(ping@ =~= ping_name());
    assert(echo@ =~= echo_name());
    assert(get@ =~= get_name());
    assert(set@ =~= set_name());
    if has_name(&frame[0], ping.as_slice()) && n == 1 {
        Ok(Command::Ping)
    } else if has_name(&frame[0], echo.as_slice()) && n == 2 {
        assert(frame@[1]@ == vals[1]);
        Ok(Command::Echo(bulk_copy(&frame[1])))
    } else if has_name(&frame[0], get.as_slice()) && n == 2 {
        assert(frame@[1]@ == vals[1]);
        Ok(Command::Get(bulk_copy(&frame[1])))
    } else if has_name(&frame[0], set.as_slice()) && n >= 3 {
        assert(frame@[1]@ == vals[1]);
        assert(frame@[2]@ == vals[2]);
        let key = bulk_copy(&frame[1]);
        let value = bulk_copy(&frame[2]);
        let mut mods: Vec<Vec<u8>> = Vec::new();
        let mut j: usize = 3;
        while j < n
            invariant
                3 <= j <= n,
                n == frame@.len(),
                vals == views(frame@),
                items == vals.map_values(|v: ValueView| v->Bulk_0),
                forall|k: int| 0 <= k < n ==> #[trigger] vals[k] is Bulk,
                byte_views(mods@) == items.subrange(3, j as int),
            decreases n - j,
        {
            assert(frame@[j as int]@ == vals[j as int]);
            let m = bulk_copy(&frame[j]);
            let ghost before = mods@;
            let ghost mv = m@;
            assert(items[j as int] == mv);
            mods.push(m);
            assert(byte_views(mods@) =~= items.subrange(3, j + 1)) by {
                assert(byte_views(before) == items.subrange(3, j as int));
                assert(byte_views(before).len() == before.len());
                assert(byte_views(mods@).len() == mods@.len());
                assert(mods@.len() == j - 2);
                assert(mods@[j - 3]@ == mv);
                assert forall|k: int| 0 <= k < mods@.len() implies #[trigger] byte_views(mods@)[k]
                    == items.subrange(3, j + 1)[k] by {
                    if k < before.len() {
                        assert(mods@[k] == before[k]);
                        assert(byte_views(before)[k] == items.subrange(3, j as int)[k]);
                    }
                }
            }
            j = j + 1;
        }
        Ok(Command::Store(key, value, mods))
    } else {
        Err(CommandError::Unknown)
    }
}

} // verus!
