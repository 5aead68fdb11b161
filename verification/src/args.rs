//! A type's codec configuration as written in its attributes: reading the
//! items into arguments, and the arguments into a tag policy.

use vstd::prelude::*;
use crate::tags::{ContainerKind, Member, OrderingMode, TagPolicy};

verus! {

/// Why an item of the configuration was refused.
#[derive(Clone, Copy, Debug, PartialEq, Eq, Structural)]
pub enum ArgError {
    /// The key is none of those known.
    Unsupported,
    /// The value is missing, is not a literal of the kind the key takes, or
    /// stands where the key takes none.
    Malformed,
}

/// One item of the configuration: a key and, for `key = value`, the text
/// of the value as it was written.
#[derive(Debug, PartialEq, Eq)]
pub struct ArgItem {
    pub key: String,
    pub value: Option<String>,
}

/// The arguments of a type's codec.
#[derive(Debug, PartialEq, Eq)]
pub struct TlvArgs {
    /// The name under which generated code reaches the codec.
    pub rs_matter_crate: String,
    /// The first automatically assigned tag.
    pub start: u8,
    /// The container the type is framed in: `struct` or `list`.
    pub datatype: String,
    /// Whether children are matched to members in any order.
    pub unordered: bool,
    /// The lifetime that the type's decoder borrows for.
    pub lifetime: String,
}

/// An item as a mathematical value.
pub ghost struct ArgItemView {
    pub key: Seq<char>,
    pub value: Option<Seq<char>>,
}

/// The arguments as a mathematical value.
pub ghost struct TlvArgsView {
    pub rs_matter_crate: Seq<char>,
    pub start: u8,
    pub datatype: Seq<char>,
    pub unordered: bool,
    pub lifetime: Seq<char>,
}

impl View for ArgItem {
    type V = ArgItemView;

    open spec fn view(&self) -> ArgItemView {
        ArgItemView {
            key: self.key@,
            value: match self.value {
                Some(v) => Some(v@),
                None => None,
            },
        }
    }
}

impl View for TlvArgs {
    type V = TlvArgsView;

    open spec fn view(&self) -> TlvArgsView {
        TlvArgsView {
            rs_matter_crate: self.rs_matter_crate@,
            start: self.start,
            datatype: self.datatype@,
            unordered: self.unordered,
            lifetime: self.lifetime@,
        }
    }
}

/// The number that `text` denotes where it is one integer literal of Rust
/// whose value fits eight bits, as `syn` reads it.
pub uninterp spec fn u8_literal(text: Seq<char>) -> Option<u8>;

/// The text that `text` denotes where it is one string literal of Rust, as
/// `syn` reads it.
pub uninterp spec fn string_literal(text: Seq<char>) -> Option<Seq<char>>;

/// Reads `text` with `syn::parse_str` as a `syn::LitInt` and takes its
/// value with `LitInt::base10_parse::<u8>`. The answer depends on the text
/// alone; it is `None` where either step refuses.
#[verifier::external_body]
fn read_u8_literal(text: &str) -> (r: Option<u8>)
    ensures
        r == u8_literal(text@),
{
    match syn::parse_str::<syn::LitInt>(text) {
        Ok(lit) => lit.base10_parse::<u8>().ok(),
        Err(_) => None,
    }
}

/// Reads `text` with `syn::parse_str` as a `syn::LitStr` and takes its
/// content with `LitStr::value`. The answer depends on the text alone; it
/// is `None` where the text is no string literal.
#[verifier::external_body]
fn read_string_literal(text: &str) -> (r: Option<String>)
    ensures
        match r {
            Some(s) => string_literal(text@) == Some(s@),
            None => string_literal(text@) is None,
        },
{
    match syn::parse_str::<syn::LitStr>(text) {
        Ok(lit) => Some(lit.value()),
        Err(_) => None,
    }
}

/// Whether two texts are the same.
fn same_text(a: &str, b: &str) -> (same: bool)
    ensures
        same == (a@ == b@),
{
    let x = a.to_owned();
    let y = b.to_owned();
    x == y
}

/// The arguments with no item read: tags from 0, a struct, sequential,
/// and the anonymous lifetime.
pub open spec fn default_args(rs_matter_crate: Seq<char>) -> TlvArgsView {
    TlvArgsView {
        rs_matter_crate,
        start: 0,
        datatype: "struct"@,
        unordered: false,
        lifetime: "'_"@,
    }
}

/// The arguments after a `start` item whose value read as `parsed`.
pub open spec fn with_start(args: TlvArgsView, parsed: Option<u8>) -> Result<TlvArgsView, ArgError> {
    match parsed {
        Some(start) => Ok(TlvArgsView { start, ..args }),
        None => Err(ArgError::Malformed),
    }
}

/// The arguments after a `lifetime` item whose value read as `parsed`.
pub open spec fn with_lifetime(args: TlvArgsView, parsed: Option<Seq<char>>) -> Result<
    TlvArgsView,
    ArgError,
> {
    match parsed {
        Some(lifetime) => Ok(TlvArgsView { lifetime, ..args }),
        None => Err(ArgError::Malformed),
    }
}

/// The arguments after a `datatype` item whose value read as `parsed`.
pub open spec fn with_datatype(args: TlvArgsView, parsed: Option<Seq<char>>) -> Result<
    TlvArgsView,
    ArgError,
> {
    match parsed {
        Some(datatype) => Ok(TlvArgsView { datatype, ..args }),
        None => Err(ArgError::Malformed),
    }
}

/// The number that an item's value denotes; none where it has no value.
pub open spec fn u8_value(value: Option<Seq<char>>) -> Option<u8> {
    match value {
        Some(text) => u8_literal(text),
        None => None,
    }
}

/// The text that an item's value denotes; none where it has no value.
pub open spec fn string_value(value: Option<Seq<char>>) -> Option<Seq<char>> {
    match value {
        Some(text) => string_literal(text),
        None => None,
    }
}

/// The arguments after one more item. `start` takes an integer literal,
/// `lifetime` and `datatype` take a string literal, `unordered` takes no
/// value; any other key is unsupported.
pub open spec fn with_item(args: TlvArgsView, item: ArgItemView) -> Result<TlvArgsView, ArgError> {
    if item.key == "start"@ {
        with_start(args, u8_value(item.value))
    } else if item.key == "lifetime"@ {
        with_lifetime(args, string_value(item.value))
    } else if item.key == "datatype"@ {
        with_datatype(args, string_value(item.value))
    } else if item.key == "unordered"@ {
        if item.value is None {
            Ok(TlvArgsView { unordered: true, ..args })
        } else {
            Err(ArgError::Malformed)
        }
    } else {
        Err(ArgError::Unsupported)
    }
}

/// The arguments after the first `n` items, or the error of the first item
/// that was refused.
pub open spec fn with_items(args: TlvArgsView, items: Seq<ArgItem>, n: int) -> Result<
    TlvArgsView,
    ArgError,
>
    decreases n,
{
    if n <= 0 {
        Ok(args)
    } else {
        match with_items(args, items, n - 1) {
            Ok(a) => with_item(a, items[n - 1]@),
            Err(e) => Err(e),
        }
    }
}

/// The first refusal stays the result however many items follow.
pub proof fn lemma_with_items_stable(args: TlvArgsView, items: Seq<ArgItem>, k: int, n: int)
    requires
        0 <= k <= n,
        with_items(args, items, k) is Err,
    ensures
        with_items(args, items, n) == with_items(args, items, k),
    decreases n - k,
{
    if k < n {
        lemma_with_items_stable(args, items, k, n - 1);
    }
}

/// The policy that the arguments give, where the datatype is one of the
/// two container kinds.
pub open spec fn policy_of(args: TlvArgsView) -> Option<TagPolicy> {
    let ordering_mode = if args.unordered {
        OrderingMode::Unordered
    } else {
        OrderingMode::Sequential
    };
    if args.datatype == "struct"@ {
        Some(TagPolicy { start: args.start, container_kind: ContainerKind::Struct, ordering_mode })
    } else if args.datatype == "list"@ {
        Some(TagPolicy { start: args.start, container_kind: ContainerKind::List, ordering_mode })
    } else {
        None
    }
}

impl Default for TlvArgs {
    /// The arguments with no item read and no crate named.
    fn default() -> (args: TlvArgs)
        ensures
            args@ == default_args(Seq::empty()),
    {
        TlvArgs {
            start: 0,
            rs_matter_crate: String::new(),
            datatype: "struct".to_owned(),
            unordered: false,
            lifetime: "'_".to_owned(),
        }
    }
}

impl TlvArgs {
    /// Sets the first tag from what a `start` item's value read as.
    pub fn set_start(&mut self, parsed: Option<u8>) -> (r: Result<(), ArgError>)
        ensures
            match with_start(old(self)@, parsed) {
                Ok(args) => r is Ok && final(self)@ == args,
                Err(e) => r == Err::<(), ArgError>(e) && final(self)@ == old(self)@,
            },
    {
        match parsed {
            Some(start) => {
                self.start = start;
                Ok(())
            },
            None => Err(ArgError::Malformed),
        }
    }

    /// Sets the lifetime from what a `lifetime` item's value read as.
    pub fn set_lifetime(&mut self, parsed: Option<String>) -> (r: Result<(), ArgError>)
        ensures
            match with_lifetime(
                old(self)@,
                match parsed {
                    Some(s) => Some(s@),
                    None => None,
                },
            ) {
                Ok(args) => r is Ok && final(self)@ == args,
                Err(e) => r == Err::<(), ArgError>(e) && final(self)@ == old(self)@,
            },
    {
        match parsed {
            Some(lifetime) => {
                self.lifetime = lifetime;
                Ok(())
            },
            None => Err(ArgError::Malformed),
        }
    }

    /// Sets the datatype from what a `datatype` item's value read as.
    pub fn set_datatype(&mut self, parsed: Option<String>) -> (r: Result<(), ArgError>)
        ensures
            match with_datatype(
                old(self)@,
                match parsed {
                    Some(s) => Some(s@),
                    None => None,
                },
            ) {
                Ok(args) => r is Ok && final(self)@ == args,
                Err(e) => r == Err::<(), ArgError>(e) && final(self)@ == old(self)@,
            },
    {
        match parsed {
            Some(datatype) => {
                self.datatype = datatype;
                Ok(())
            },
            None => Err(ArgError::Malformed),
        }
    }

    /// Reads one item into the arguments. An item that is refused leaves
    /// them as they were.
    pub fn parse(&mut self, item: &ArgItem) -> (r: Result<(), ArgError>)
        ensures
            match with_item(old(self)@, item@) {
                Ok(args) => r is Ok && final(self)@ == args,
                Err(e) => r == Err::<(), ArgError>(e) && final(self)@ == old(self)@,
            },
    {
        if same_text(item.key.as_str(), "start") {
            let parsed = match &item.value {
                Some(text) => read_u8_literal(text.as_str()),
                None => None,
            };
            self.set_start(parsed)
        } else if same_text(item.key.as_str(), "lifetime") {
            let parsed = match &item.value {
                Some(text) => read_string_literal(text.as_str()),
                None => None,
            };
            self.set_lifetime(parsed)
        } else if same_text(item.key.as_str(), "datatype") {
            let parsed = match &item.value {
                Some(text) => read_string_literal(text.as_str()),
                None => None,
            };
            self.set_datatype(parsed)
        } else if same_text(item.key.as_str(), "unordered") {
            if item.value.is_none() {
                self.unordered = true;
                Ok(())
            } else {
                Err(ArgError::Malformed)
            }
        } else {
            Err(ArgError::Unsupported)
        }
    }

    /// The tag policy that the arguments give; none where the datatype is
    /// neither `struct` nor `list`.
    pub fn policy(&self) -> (p: Option<TagPolicy>)
        ensures
            p == policy_of(self@),
    {
        let ordering_mode = if self.unordered {
            OrderingMode::Unordered
        } else {
            OrderingMode::Sequential
        };
        if same_text(self.datatype.as_str(), "struct") {
            Some(TagPolicy { start: self.start, container_kind: ContainerKind::Struct, ordering_mode })
        } else if same_text(self.datatype.as_str(), "list") {
            Some(TagPolicy { start: self.start, container_kind: ContainerKind::List, ordering_mode })
        } else {
            None
        }
    }
}

/// Reads a type's configuration: the defaults for the named crate, with
/// each item read in the order written, so that a later item wins over an
/// earlier one. The first item that is refused ends the reading with its
/// error.
pub fn parse_tlvargs(items: &Vec<ArgItem>, rs_matter_crate: String) -> (r: Result<TlvArgs, ArgError>)
    ensures
        match with_items(default_args(rs_matter_crate@), items@, items@.len() as int) {
            Ok(args) => r is Ok && r->Ok_0@ == args,
            Err(e) => r == Err::<TlvArgs, ArgError>(e),
        },
{
    let mut tlvargs = TlvArgs::default();
    tlvargs.rs_matter_crate = rs_matter_crate;
    let ghost base = default_args(rs_matter_crate@);
    let mut i: usize = 0;
    while i < items.len()
        invariant
            i <= items.len(),
            base == default_args(rs_matter_crate@),
            with_items(base, items@, i as int) == Ok::<TlvArgsView, ArgError>(tlvargs@),
        decreases items.len() - i,
    {
        match tlvargs.parse(&items[i]) {
            Ok(()) => {},
            Err(e) => {
                proof {
                    assert(with_items(base, items@, i + 1) == Err::<TlvArgsView, ArgError>(e));
                    lemma_with_items_stable(base, items@, i + 1, items@.len() as int);
                }
                return Err(e);
            },
        }
        i += 1;
    }
    Ok(tlvargs)
}

/// The member that a field stands for, given what its first explicit tag
/// read as, if it has one.
pub open spec fn member_with(first: Option<Option<u8>>) -> Result<Member, ArgError> {
    match first {
        None => Ok(Member { explicit_tag: None }),
        Some(Some(tag)) => Ok(Member { explicit_tag: Some(tag) }),
        Some(None) => Err(ArgError::Malformed),
    }
}

/// The member that a field stands for, given what its first explicit tag
/// read as, if it has one: that tag counts, and a field without any is
/// numbered automatically.
pub fn member_from(first: Option<Option<u8>>) -> (r: Result<Member, ArgError>)
    ensures
        r == member_with(first),
{
    match first {
        None => Ok(Member { explicit_tag: None }),
        Some(Some(tag)) => Ok(Member { explicit_tag: Some(tag) }),
        Some(None) => Err(ArgError::Malformed),
    }
}

/// Reads a field's explicit tag from the texts of its tag attributes, in
/// the order written. Only the first is read: it must be an integer
/// literal that fits the tag space.
pub fn parse_tag_val(tagvals: &Vec<String>) -> (r: Result<Member, ArgError>)
    ensures
        r == member_with(
            if tagvals@.len() > 0 {
                Some(u8_literal(tagvals@[0]@))
            } else {
                None
            },
        ),
{
    if tagvals.len() > 0 {
        member_from(Some(read_u8_literal(tagvals[0].as_str())))
    } else {
        member_from(None)
    }
}

} // verus!
