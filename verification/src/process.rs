//! Decisions of the process and its standard modules: which kind of bus a
//! configured class names, which module a configuration entry is for, the
//! defaults of the RabbitMQ connection, and the files messages are recorded in.
use vstd::prelude::*;

use crate::text::{chars_eq, chars_of, push_all, string_from_chars};

verus! {

/// The kinds of message bus a process can create.
#[derive(Clone, Copy, PartialEq, Eq, Structural, Debug)]
pub enum BusClass {
    InMemory,
    RabbitMQ,
}

/// The bus kind a class name stands for: `in-memory` or `rabbit-mq`.
pub open spec fn bus_class_of(class: Seq<char>) -> Option<BusClass> {
    if class == "in-memory"@ {
        Some(BusClass::InMemory)
    } else if class == "rabbit-mq"@ {
        Some(BusClass::RabbitMQ)
    } else {
        None
    }
}

/// The error for a class name that names no bus kind.
pub open spec fn unknown_class_message(class: Seq<char>) -> Seq<char> {
    "Unknown message bus class "@ + class
}

/// The bus kind of a configured class, or the error message for an unknown one.
pub fn parse_bus_class(class: &str) -> (r: Result<BusClass, String>)
    ensures
        match r {
            Ok(c) => bus_class_of(class@) == Some(c),
            Err(e) => bus_class_of(class@) is None && e@ == unknown_class_message(class@),
        },
{
    let c = chars_of(class);
    let in_memory = chars_of("in-memory");
    let rabbit = chars_of("rabbit-mq");
    if chars_eq(&c, &in_memory) {
        Ok(BusClass::InMemory)
    } else if chars_eq(&c, &rabbit) {
        Ok(BusClass::RabbitMQ)
    } else {
        let mut msg = chars_of("Unknown message bus class ");
        push_all(&mut msg, &c);
        Err(string_from_chars(msg))
    }
}

/// The module a `[module.<id>]` entry is for: its `class` if given, else its id.
pub fn module_name(id: String, class: Option<String>) -> (name: String)
    ensures
        name@ == (match class {
            Some(c) => c@,
            None => id@,
        }),
{
    match class {
        Some(c) => c,
        None => id,
    }
}

/// The RabbitMQ server to connect to: the configured URL, else the local default.
pub fn rabbit_mq_url(configured: Option<String>) -> (url: String)
    ensures
        url@ == (match configured {
            Some(u) => u@,
            None => "amqp://127.0.0.1:5672/%2f"@,
        }),
{
    match configured {
        Some(u) => u,
        None => "amqp://127.0.0.1:5672/%2f".to_owned(),
    }
}

/// The RabbitMQ exchange to use: the configured one, else `caryatid`.
pub fn rabbit_mq_exchange(configured: Option<String>) -> (exchange: String)
    ensures
        exchange@ == (match configured {
            Some(e) => e@,
            None => "caryatid"@,
        }),
{
    match configured {
        Some(e) => e,
        None => "caryatid".to_owned(),
    }
}

/// The library file of the module configured under `key`: the configured
/// `lib`, else `lib<key>_module.so`.
pub fn module_library_name(key: &str, configured: Option<String>) -> (name: String)
    ensures
        name@ == (match configured {
            Some(l) => l@,
            None => "lib"@ + key@ + "_module.so"@,
        }),
{
    match configured {
        Some(l) => l,
        None => {
            let mut v = chars_of("lib");
            let k = chars_of(key);
            push_all(&mut v, &k);
            let tail = chars_of("_module.so");
            push_all(&mut v, &tail);
            string_from_chars(v)
        },
    }
}

/// Where a module library is loaded from: the configured module directory
/// (`.` by default), a `/`, and the library's file name.
pub fn module_library_path(directory: Option<String>, library: &str) -> (path: String)
    ensures
        path@ == (match directory {
            Some(d) => d@,
            None => "."@,
        }) + "/"@ + library@,
{
    let mut v = match directory {
        Some(d) => chars_of(d.as_str()),
        None => chars_of("."),
    };
    let slash = chars_of("/");
    push_all(&mut v, &slash);
    let l = chars_of(library);
    push_all(&mut v, &l);
    string_from_chars(v)
}

/// The decimal digit for `d` (below 10).
pub open spec fn digit_char(d: int) -> char {
    (('0' as int) + d) as char
}

/// The decimal text of `n`, without leading zeros (`0` for zero).
pub open spec fn decimal(n: nat) -> Seq<char>
    decreases n,
{
    if n < 10 {
        seq![digit_char(n as int)]
    } else {
        decimal(n / 10).push(digit_char((n % 10) as int))
    }
}

/// The number that a text of decimal digits stands for, read from the left.
pub open spec fn digits_value(s: Seq<char>) -> int
    decreases s.len(),
{
    if s.len() == 0 {
        0
    } else {
        digits_value(s.drop_last()) * 10 + ((s.last() as int) - ('0' as int))
    }
}

/// The decimal text of `n` is its numeral: it is not empty, each of its characters
/// is one of `0` to `9`, it starts with `0` only when it is `0` itself, and its
/// digits read back give `n`.
pub proof fn law_decimal_is_the_numeral(n: nat)
    ensures
        decimal(n).len() >= 1,
        forall|k: int| 0 <= k < decimal(n).len() ==> '0' <= #[trigger] decimal(n)[k] <= '9',
        decimal(n)[0] == '0' ==> n == 0,
        digits_value(decimal(n)) == n,
    decreases n,
{
    if n >= 10 {
        law_decimal_is_the_numeral(n / 10);
        let d = decimal(n / 10);
        let e = decimal(n);
        assert(e == d.push(digit_char((n % 10) as int)));
        assert(e.drop_last() =~= d);
        assert(n == (n / 10) * 10 + n % 10) by (nonlinear_arith);
        assert forall|k: int| 0 <= k < e.len() implies '0' <= #[trigger] e[k] <= '9' by {
            if k < d.len() {
                assert(e[k] == d[k]);
            }
        }
        assert(e[0] == d[0]);
        assert(e.last() == digit_char((n % 10) as int));
        assert((digit_char((n % 10) as int) as int) == ('0' as int) + n % 10);
        assert(digits_value(e) == digits_value(d) * 10 + n % 10);
        assert(digits_value(e) == n);
    } else {
        assert((digit_char(n as int) as int) == ('0' as int) + n);
        assert(decimal(n).drop_last() =~= Seq::<char>::empty());
        assert(digits_value(Seq::<char>::empty()) == 0);
        assert(digits_value(decimal(n)) == n);
    }
}

fn digit_of(d: u64) -> (c: char)
    requires
        d < 10,
    ensures
        c == digit_char(d as int),
{
    match d {
        0 => '0',
        1 => '1',
        2 => '2',
        3 => '3',
        4 => '4',
        5 => '5',
        6 => '6',
        7 => '7',
        8 => '8',
        _ => '9',
    }
}

/// The decimal text of `n`.
pub fn decimal_text(n: u64) -> (digits: Vec<char>)
    ensures
        digits@ == decimal(n as nat),
    decreases n,
{
    if n < 10 {
        let c = digit_of(n);
        let mut v: Vec<char> = Vec::new();
        v.push(c);
        assert(v@ =~= decimal(n as nat));
        v
    } else {
        let mut v = decimal_text(n / 10);
        let c = digit_of(n % 10);
        v.push(c);
        v
    }
}

/// The file the message with number `n` is recorded in and played back from: `<n>.json`.
pub open spec fn message_file_name(n: u64) -> Seq<char> {
    decimal(n as nat) + ".json"@
}

/// The name of the file for message number `n`.
pub fn message_file(n: u64) -> (name: String)
    ensures
        name@ == message_file_name(n),
{
    let mut v = decimal_text(n);
    let ext = chars_of(".json");
    push_all(&mut v, &ext);
    string_from_chars(v)
}

/// The numbering of recorded or played-back messages: each message takes the
/// next number.
pub struct MessageCounter {
    next: u64,
}

impl MessageCounter {
    /// The number the next message takes.
    pub closed spec fn next_number(&self) -> u64 {
        self.next
    }

    /// Numbering starts at zero.
    pub fn new() -> (c: Self)
        ensures
            c.next_number() == 0,
    {
        MessageCounter { next: 0 }
    }

    /// The number the next message takes.
    pub fn next(&self) -> (n: u64)
        ensures
            n == self.next_number(),
    {
        self.next
    }

    /// The file for the next message; the number after it is the next one.
    pub fn next_file(&mut self) -> (name: String)
        requires
            old(self).next_number() < u64::MAX,
        ensures
            name@ == message_file_name(old(self).next_number()),
            final(self).next_number() == old(self).next_number() + 1,
    {
        let name = message_file(self.next);
        self.next = self.next + 1;
        name
    }
}

} // verus!
