//! Handle wrappers and result conventions of the Lynx host bindings.
//!
//! Host-owned values (elements, text nodes, events) are carried as their
//! host arena id (`i32`); a negative id means "no node". The functions here
//! decide how raw host replies become wrapper values and errors; the calls
//! into the host itself are made by the embedding application.

use std::borrow::Cow;
use std::marker::PhantomData;
use vstd::prelude::*;
use vstd::utf8::{valid_utf8, decode_utf8, encode_utf8, encode_utf8_valid_utf8, encode_utf8_decode_utf8};
use crate::host_buffer::{
    StringOut, call_reply, lemma_string_borrow_outcome_weaken, lemma_string_out_outcome_weaken,
    lend_to, node_of, string_borrow_call, string_borrow_outcome_by, string_out_call,
    string_out_outcome, string_out_outcome_by, grown, SCRATCH_INITIAL_CAPACITY, zeros,
};
use crate::host_buffer::{LISTENER_FLAG_CAPTURE, LISTENER_FLAG_ONCE, LISTENER_FLAG_PASSIVE};

verus! {

/// Error returned by binding convenience wrappers.
#[derive(Debug, Clone, PartialEq, Eq)]
pub enum Error {
    /// The host returned no node (a negative arena id) where one was expected.
    NullNode(&'static str),
    /// The host string return did not fit in the guest-provided buffer.
    StringBufferTooSmall {
        /// Binding that produced the string.
        binding: &'static str,
        /// Required UTF-8 byte length returned by native.
        required: usize,
        /// Guest-provided output capacity.
        capacity: usize,
    },
    /// The host returned bytes that were not valid UTF-8.
    InvalidUtf8(&'static str),
}

/// Binding result type.
pub type Result<T> = std::result::Result<T, Error>;

/// Host timer id returned by `setTimeout` and `setInterval`.
pub type TimerId = i64;

/// Compares two string slices by their characters.
pub fn str_eq(a: &str, b: &str) -> (r: bool)
    ensures
        r == (a@ == b@),
{
    a.to_owned() == b.to_owned()
}

/// Requires a non-negative host arena id, mapping the negative "no node"
/// sentinel to an error naming the binding.
pub fn required_ref(binding: &'static str, raw: i32) -> (r: Result<i32>)
    ensures
        raw < 0 ==> r == Err::<i32, Error>(Error::NullNode(binding)),
        raw >= 0 ==> r == Ok::<i32, Error>(raw),
{
    if raw < 0 {
        Err(Error::NullNode(binding))
    } else {
        Ok(raw)
    }
}

#[verifier::external_body]
fn string_from_utf8(bytes: Vec<u8>) -> (r: Option<String>)
    ensures
        r is Some <==> valid_utf8(bytes@),
        r matches Some(s) ==> s@ == decode_utf8(bytes@),
{
    String::from_utf8(bytes).ok()
}

#[verifier::external_body]
fn str_from_utf8(bytes: &[u8]) -> (r: Option<&str>)
    ensures
        r is Some <==> valid_utf8(bytes@),
        r matches Some(s) ==> s@ == decode_utf8(bytes@),
{
    std::str::from_utf8(bytes).ok()
}

/// Maps the outcome of a host string-out call to the binding result: an
/// absent value is `Ok(None)`, bytes must be UTF-8, and an overflow names
/// the binding with the lengths involved.
pub fn string_result(binding: &'static str, out: StringOut) -> (r: Result<Option<String>>)
    ensures
        string_result_spec(binding, out, r),
{
    match out {
        StringOut::Absent => Ok(None),
        StringOut::Bytes(bytes) => match string_from_utf8(bytes) {
            Some(s) => Ok(Some(s)),
            None => Err(Error::InvalidUtf8(binding)),
        },
        StringOut::Overflow { required, capacity } => Err(
            Error::StringBufferTooSmall { binding, required, capacity },
        ),
    }
}

/// The binding result of a string-out outcome (see [`string_result`]).
pub open spec fn string_result_spec(binding: &'static str, out: StringOut, r: Result<Option<String>>) -> bool {
        match out {
            StringOut::Absent => r matches Ok(None),
            StringOut::Bytes(b) => if valid_utf8(b@) {
                r matches Ok(Some(s)) && s@ == decode_utf8(b@)
            } else {
                r == Err::<Option<String>, Error>(Error::InvalidUtf8(binding))
            },
            StringOut::Overflow { required, capacity } => r == Err::<Option<String>, Error>(
                Error::StringBufferTooSmall { binding, required, capacity },
            ),
        }
}

/// Calls a string-returning host binding and maps its reply with
/// [`string_result`].
pub fn string_return<F: Fn(Vec<u8>) -> (Vec<u8>, i32)>(binding: &'static str, call: F) -> (r: Result<
    Option<String>,
>)
    requires
        forall|b: Vec<u8>| call.requires((b,)),
    ensures
        exists|out: StringOut| string_out_outcome(call, out) && string_result_spec(binding, out, r),
        r matches Err(e) ==> (e == Error::InvalidUtf8(binding) || (e matches Error::StringBufferTooSmall {
            binding: b,
            required,
            capacity,
        } && b == binding && required > capacity)),
{
    string_result(binding, string_out_call(call))
}

/// Decodes borrowed host bytes for a borrowing string binding: `None` is an
/// absent value, and bytes must be UTF-8.
pub fn borrowed_str_result<'a>(binding: &'static str, bytes: Option<&'a [u8]>) -> (r: Result<
    Option<&'a str>,
>)
    ensures
        match bytes {
            None => r matches Ok(None),
            Some(b) => if valid_utf8(b@) {
                r matches Ok(Some(s)) && s@ == decode_utf8(b@)
            } else {
                r == Err::<Option<&str>, Error>(Error::InvalidUtf8(binding))
            },
        },
{
    match bytes {
        None => Ok(None),
        Some(b) => match str_from_utf8(b) {
            Some(s) => Ok(Some(s)),
            None => Err(Error::InvalidUtf8(binding)),
        },
    }
}

/// Shared node operations.
pub trait NodeOps {
    /// The host arena id of this node.
    spec fn node_id(&self) -> i32;

    /// Returns the host arena id for this node.
    fn id(&self) -> (r: i32)
        ensures
            r == self.node_id(),
    ;
}

/// Host element wrapper.
///
/// The wrapper stores the host arena id directly. It does not allocate a
/// guest-side id or participate in a guest-side node registry.
#[derive(Clone, Debug)]
pub struct Element {
    raw: i32,
}

impl View for Element {
    type V = i32;

    closed spec fn view(&self) -> i32 {
        self.raw
    }
}

impl Element {
    /// Creates an element by tag name through `create` (the host's
    /// `__CreateElement`), failing on the "no node" sentinel.
    pub fn new<F: FnOnce(&str) -> i32>(tag: &str, create: F) -> (r: Result<Element>)
        requires
            create.requires((tag,)),
        ensures
            exists|raw: i32|
                create.ensures((tag,), raw) && (raw < 0 ==> r == Err::<Element, Error>(
                    Error::NullNode("__CreateElement"),
                )) && (raw >= 0 ==> (r matches Ok(e) && e@ == raw)),
    {
        let raw = create(tag);
        match required_ref("__CreateElement", raw) {
            Ok(raw) => Ok(Element::from_raw_unchecked(raw)),
            Err(e) => Err(e),
        }
    }

    /// Creates an element through `create` and records the namespace URI as
    /// its `xmlns` attribute through `write`.
    pub fn new_ns<'a, F: FnOnce(&str) -> i32, W: FnOnce(AttributeWrite<'a>)>(
        namespace: &'a str,
        tag: &str,
        create: F,
        write: W,
    ) -> (r: Result<Element>)
        requires
            create.requires((tag,)),
            forall|w: AttributeWrite<'a>| write.requires((w,)),
        ensures
            exists|raw: i32|
                create.ensures((tag,), raw) && (raw < 0 ==> r == Err::<Element, Error>(
                    Error::NullNode("__CreateElement"),
                )) && (raw >= 0 ==> (r matches Ok(e) && e@ == raw && write.ensures(
                    (AttributeWrite::SetString(raw, "xmlns", namespace),),
                    (),
                ))),
    {
        let element = Element::new(tag, create);
        match element {
            Ok(e) => {
                proof {
                    reveal_strlit("xmlns");
                    reveal_strlit("class");
                    reveal_strlit("style");
                    assert("xmlns"@[0] != "class"@[0]);
                    assert("xmlns"@[0] != "style"@[0]);
                }
                match e.set_attribute(write, "xmlns", namespace) {
                    Ok(()) => Ok(e),
                    Err(err) => Err(err),
                }
            },
            Err(err) => Err(err),
        }
    }

    /// Wraps a host arena id, returning `None` for the "no node" sentinel.
    pub fn from_raw(raw: i32) -> (r: Option<Element>)
        ensures
            r is Some <==> raw >= 0,
            r matches Some(e) ==> e@ == raw,
    {
        if raw < 0 {
            None
        } else {
            Some(Element::from_raw_unchecked(raw))
        }
    }

    /// Wraps a host arena id without checking for the "no node" sentinel.
    pub fn from_raw_unchecked(raw: i32) -> (e: Element)
        ensures
            e@ == raw,
    {
        Element { raw }
    }

    /// Returns the host arena id carried by this wrapper.
    pub fn raw(&self) -> (r: i32)
        ensures
            r == self@,
    {
        self.raw
    }

    /// Returns the host arena id.
    pub fn id(&self) -> (r: i32)
        ensures
            r == self@,
    {
        self.raw
    }

    /// Consumes the wrapper and returns the host arena id.
    pub fn into_raw(self) -> (r: i32)
        ensures
            r == self@,
    {
        self.raw
    }
}

impl NodeOps for Element {
    open spec fn node_id(&self) -> i32 {
        self@
    }

    fn id(&self) -> (r: i32) {
        self.raw
    }
}

/// Host text-node wrapper.
#[derive(Clone, Debug)]
pub struct Text {
    raw: i32,
}

impl View for Text {
    type V = i32;

    closed spec fn view(&self) -> i32 {
        self.raw
    }
}

impl Text {
    /// Creates a raw text node through `create` (the host's
    /// `__CreateRawText`), failing on the "no node" sentinel.
    pub fn new<F: FnOnce(&str) -> i32>(text: &str, create: F) -> (r: Result<Text>)
        requires
            create.requires((text,)),
        ensures
            exists|raw: i32|
                create.ensures((text,), raw) && (raw < 0 ==> r == Err::<Text, Error>(
                    Error::NullNode("__CreateRawText"),
                )) && (raw >= 0 ==> (r matches Ok(t) && t@ == raw)),
    {
        let raw = create(text);
        match required_ref("__CreateRawText", raw) {
            Ok(raw) => Ok(Text::from_raw_unchecked(raw)),
            Err(e) => Err(e),
        }
    }

    /// Wraps a host arena id, returning `None` for the "no node" sentinel.
    pub fn from_raw(raw: i32) -> (r: Option<Text>)
        ensures
            r is Some <==> raw >= 0,
            r matches Some(t) ==> t@ == raw,
    {
        if raw < 0 {
            None
        } else {
            Some(Text::from_raw_unchecked(raw))
        }
    }

    /// Wraps a host arena id without checking for the "no node" sentinel.
    pub fn from_raw_unchecked(raw: i32) -> (t: Text)
        ensures
            t@ == raw,
    {
        Text { raw }
    }

    /// Returns the host arena id carried by this wrapper.
    pub fn raw(&self) -> (r: i32)
        ensures
            r == self@,
    {
        self.raw
    }

    /// Returns the host arena id.
    pub fn id(&self) -> (r: i32)
        ensures
            r == self@,
    {
        self.raw
    }

    /// Consumes the wrapper and returns the host arena id.
    pub fn into_raw(self) -> (r: i32)
        ensures
            r == self@,
    {
        self.raw
    }
}

impl NodeOps for Text {
    open spec fn node_id(&self) -> i32 {
        self@
    }

    fn id(&self) -> (r: i32) {
        self.raw
    }
}

impl NodeOps for i32 {
    open spec fn node_id(&self) -> i32 {
        *self
    }

    fn id(&self) -> (r: i32) {
        *self
    }
}

/// Host event handle that owns one id in the host event arena.
///
/// The owner releases the id with `binding__DropEvent` once it is done;
/// [`Event::into_raw`] hands the id on without releasing it.
#[derive(Debug)]
pub struct Event {
    raw: i32,
}

impl View for Event {
    type V = i32;

    closed spec fn view(&self) -> i32 {
        self.raw
    }
}

/// Borrowed host event arena id. It never releases the event.
#[derive(Clone, Copy, Debug)]
pub struct EventRef<'a> {
    raw: i32,
    _marker: PhantomData<&'a Event>,
}

impl<'a> View for EventRef<'a> {
    type V = i32;

    closed spec fn view(&self) -> i32 {
        self.raw
    }
}

impl<'a> EventRef<'a> {
    fn from_raw_unchecked(raw: i32) -> (e: EventRef<'a>)
        ensures
            e@ == raw,
    {
        EventRef { raw, _marker: PhantomData }
    }

    /// Returns the host event arena id.
    pub fn raw(&self) -> (r: i32)
        ensures
            r == self@,
    {
        self.raw
    }
}

impl Event {
    /// Creates a host event through `create` (the host's
    /// `__CreateEvent`), failing when it reports no event.
    pub fn new<F: FnOnce(i32, &str, i32) -> Option<i32>>(
        event_type: i32,
        name: &str,
        flags: i32,
        create: F,
    ) -> (r: Result<Event>)
        requires
            create.requires((event_type, name, flags)),
        ensures
            exists|raw: Option<i32>|
                create.ensures((event_type, name, flags), raw) && (raw is None ==> r == Err::<
                    Event,
                    Error,
                >(Error::NullNode("__CreateEvent"))) && (raw matches Some(id) ==> (r matches Ok(e)
                    && e@ == id)),
    {
        match create(event_type, name, flags) {
            Some(id) => Ok(Event::from_raw_unchecked(id)),
            None => Err(Error::NullNode("__CreateEvent")),
        }
    }

    /// Takes ownership of a host event arena id, `None` for the sentinel.
    pub fn from_raw(raw: i32) -> (r: Option<Event>)
        ensures
            r is Some <==> raw >= 0,
            r matches Some(e) ==> e@ == raw,
    {
        if raw < 0 {
            None
        } else {
            Some(Event::from_raw_unchecked(raw))
        }
    }

    /// Takes ownership of a host event arena id without checking the
    /// sentinel.
    pub fn from_raw_unchecked(raw: i32) -> (e: Event)
        ensures
            e@ == raw,
    {
        Event { raw }
    }

    /// Returns the host event arena id.
    pub fn raw(&self) -> (r: i32)
        ensures
            r == self@,
    {
        self.raw
    }

    /// Borrows this event without taking ownership of the arena id.
    pub fn as_ref(&self) -> (r: EventRef<'_>)
        ensures
            r@ == self@,
    {
        EventRef::from_raw_unchecked(self.raw)
    }

    /// Borrows a raw host event arena id for the duration of `f`; `None`
    /// for the sentinel, in which case `f` is not called.
    pub fn with_borrowed_raw<R, F: FnOnce(EventRef<'_>) -> R>(raw: i32, f: F) -> (r: Option<R>)
        requires
            forall|e: EventRef<'_>| e@ == raw ==> f.requires((e,)),
        ensures
            r is Some <==> raw >= 0,
            r matches Some(v) ==> exists|e: EventRef<'_>| e@ == raw && f.ensures((e,), v),
    {
        if raw < 0 {
            None
        } else {
            let e = EventRef::from_raw_unchecked(raw);
            Some(f(e))
        }
    }

    /// Consumes the handle without releasing the host event; the caller
    /// becomes responsible for releasing the id.
    pub fn into_raw(self) -> (r: i32)
        ensures
            r == self@,
    {
        self.raw
    }
}

/// Where an attribute write is routed on the host.
#[derive(Debug, Clone, Copy, PartialEq, Eq)]
pub enum AttributeRoute {
    /// `class` replaces the element's class list.
    Classes,
    /// `style` replaces the inline style text.
    InlineStyle,
    /// Any other key is a plain string attribute.
    StringAttribute,
}

/// Routes an attribute write by its key: `class` and `style` have host
/// bindings of their own.
pub fn attribute_route(key: &str) -> (r: AttributeRoute)
    ensures
        key@ == "class"@ ==> r == AttributeRoute::Classes,
        key@ == "style"@ ==> r == AttributeRoute::InlineStyle,
        key@ != "class"@ && key@ != "style"@ ==> r == AttributeRoute::StringAttribute,
{
    proof {
        reveal_strlit("class");
        reveal_strlit("style");
        assert("class"@[0] != "style"@[0]);
    }
    if str_eq(key, "class") {
        AttributeRoute::Classes
    } else if str_eq(key, "style") {
        AttributeRoute::InlineStyle
    } else {
        AttributeRoute::StringAttribute
    }
}

/// True when removing `key` clears the class list (writes an empty class
/// string) rather than removing a string attribute.
pub fn removal_clears_classes(key: &str) -> (r: bool)
    ensures
        r == (key@ == "class"@),
{
    str_eq(key, "class")
}

/// Event listener options.
#[derive(Debug, Clone, Copy, PartialEq, Eq)]
pub struct EventListenerOptions {
    pub capture: bool,
    pub passive: bool,
    pub once: bool,
}

/// The host option bit set of listener options.
pub open spec fn listener_bits(o: EventListenerOptions) -> int {
    (if o.capture {
        1int
    } else {
        0int
    }) + (if o.once {
        2int
    } else {
        0int
    }) + (if o.passive {
        4int
    } else {
        0int
    })
}

impl Default for EventListenerOptions {
    /// Options with every flag off.
    fn default() -> (o: EventListenerOptions)
        ensures
            !o.capture && !o.passive && !o.once,
    {
        EventListenerOptions::new()
    }
}

impl EventListenerOptions {
    /// Creates empty listener options.
    pub fn new() -> (o: EventListenerOptions)
        ensures
            !o.capture && !o.passive && !o.once,
    {
        EventListenerOptions { capture: false, passive: false, once: false }
    }

    /// Enables capture.
    pub fn capture(self) -> (o: EventListenerOptions)
        ensures
            o == (EventListenerOptions { capture: true, ..self }),
    {
        EventListenerOptions { capture: true, ..self }
    }

    /// Enables passive listener semantics.
    pub fn passive(self) -> (o: EventListenerOptions)
        ensures
            o == (EventListenerOptions { passive: true, ..self }),
    {
        EventListenerOptions { passive: true, ..self }
    }

    /// Enables one-shot listener semantics.
    pub fn once(self) -> (o: EventListenerOptions)
        ensures
            o == (EventListenerOptions { once: true, ..self }),
    {
        EventListenerOptions { once: true, ..self }
    }

    /// The host option bit set.
    pub fn bits(self) -> (b: i32)
        ensures
            b == listener_bits(self),
    {
        (if self.capture {
            LISTENER_FLAG_CAPTURE
        } else {
            0
        }) + (if self.once {
            LISTENER_FLAG_ONCE
        } else {
            0
        }) + (if self.passive {
            LISTENER_FLAG_PASSIVE
        } else {
            0
        })
    }
}

/// The option bits used to remove a listener by its capture flag alone.
pub fn capture_bits(capture: bool) -> (b: i32)
    ensures
        b == (if capture {
            1i32
        } else {
            0i32
        }),
{
    if capture {
        LISTENER_FLAG_CAPTURE
    } else {
        0
    }
}

/// The event whose host callback is being dispatched: the arena id of its
/// current target, and whether its default has been prevented.
#[derive(Debug, Clone, Copy, PartialEq, Eq)]
pub struct EventDispatch {
    current: Option<(i32, bool)>,
}

impl View for EventDispatch {
    type V = Option<(i32, bool)>;

    closed spec fn view(&self) -> Option<(i32, bool)> {
        self.current
    }
}

impl EventDispatch {
    /// No host callback is being dispatched.
    pub fn new() -> (d: EventDispatch)
        ensures
            d@ is None,
    {
        EventDispatch { current: None }
    }

    /// A host callback starts for an event whose current target is `target`;
    /// its default is not prevented yet.
    pub fn begin(&mut self, target: i32)
        ensures
            final(self)@ == Some((target, false)),
    {
        self.current = Some((target, false));
    }

    /// Prevents the default of the event being dispatched; outside a
    /// dispatch there is none, and nothing changes.
    pub fn prevent_default(&mut self)
        ensures
            final(self)@ == (match old(self)@ {
                Some((t, _)) => Some((t, true)),
                None => None,
            }),
    {
        if let Some((t, _)) = self.current {
            self.current = Some((t, true));
        }
    }

    /// The host callback returns.
    pub fn end(&mut self)
        ensures
            final(self)@ is None,
    {
        self.current = None;
    }
}

/// Returns the current event target while a host callback is being
/// dispatched, and `None` otherwise.
pub fn event_target(dispatch: &EventDispatch) -> (r: Option<i32>)
    ensures
        r == (match dispatch@ {
            Some((t, _)) => Some(t),
            None => None::<i32>,
        }),
{
    match dispatch.current {
        Some((t, _)) => Some(t),
        None => None,
    }
}

/// Returns whether the current event has had its default prevented; `false`
/// when no host callback is being dispatched.
pub fn event_default_prevented(dispatch: &EventDispatch) -> (r: bool)
    ensures
        r == (match dispatch@ {
            Some((_, p)) => p,
            None => false,
        }),
{
    match dispatch.current {
        Some((_, p)) => p,
        None => false,
    }
}

/// Debug helper for nullable host strings: the string, or the empty string.
pub fn display_optional_string(value: Option<String>) -> (s: Cow<'static, str>)
    ensures
        value matches Some(v) ==> s@ == v@,
        value is None ==> s@ == Seq::<char>::empty(),
{
    match value {
        Some(v) => Cow::Owned(v),
        None => {
            proof {
                reveal_strlit("");
            }
            Cow::Borrowed("")
        },
    }
}

/// The unique id of an event's current target, as reported by the host: a
/// negative id means none.
pub fn current_target_unique_id(raw: i64) -> (r: Option<i64>)
    ensures
        r == (if raw >= 0 {
            Some(raw)
        } else {
            None::<i64>
        }),
{
    if raw >= 0 {
        Some(raw)
    } else {
        None
    }
}

/// A host arena id read as an optional node, as the tree accessors report
/// it: negative ids are absent.
pub fn optional_node(raw: i32) -> (r: Option<i32>)
    ensures
        r == node_of(raw),
{
    crate::host_buffer::node(raw)
}


/// One attribute write on the host, as the embedding application performs
/// it.
#[derive(Debug, Clone, Copy, PartialEq, Eq)]
pub enum AttributeWrite<'a> {
    /// `__SetClasses`: replaces the class list of the element.
    SetClasses(i32, &'a str),
    /// `__SetInlineStyles`: replaces the inline style text of the element.
    SetInlineStyle(i32, &'a str),
    /// `__SetAttribute` with a string value.
    SetString(i32, &'a str, &'a str),
    /// `__SetAttribute` with a `null` value.
    Remove(i32, &'a str),
}

/// The write that sets attribute `key` of element `el` to `value`: `class`
/// and `style` have host bindings of their own.
pub open spec fn set_write<'a>(el: i32, key: &'a str, value: &'a str) -> AttributeWrite<'a> {
    if key@ == "class"@ {
        AttributeWrite::SetClasses(el, value)
    } else if key@ == "style"@ {
        AttributeWrite::SetInlineStyle(el, value)
    } else {
        AttributeWrite::SetString(el, key, value)
    }
}

/// The write that removes attribute `key` of element `el`: removing
/// `class` writes an empty class list.
pub open spec fn remove_write<'a>(el: i32, key: &'a str) -> AttributeWrite<'a> {
    if key@ == "class"@ {
        AttributeWrite::SetClasses(el, "")
    } else {
        AttributeWrite::Remove(el, key)
    }
}

/// Element attribute operations; `write` performs the host write.
pub trait ElementOps {
    /// Sets an attribute to a string value, routed by [`attribute_route`].
    fn set_attribute<'a, W: FnOnce(AttributeWrite<'a>)>(&self, write: W, key: &'a str, value: &'a str) -> (r:
        Result<()>)
        requires
            forall|w: AttributeWrite<'a>| write.requires((w,)),
        ensures
            r is Ok,
    ;

    /// Removes an attribute; removing `class` clears the class list.
    fn remove_attribute<'a, W: FnOnce(AttributeWrite<'a>)>(&self, write: W, key: &'a str) -> (r: Result<()>)
        requires
            forall|w: AttributeWrite<'a>| write.requires((w,)),
        ensures
            r is Ok,
    ;
}

impl ElementOps for Element {
    fn set_attribute<'a, W: FnOnce(AttributeWrite<'a>)>(&self, write: W, key: &'a str, value: &'a str) -> (r:
        Result<()>)
        ensures
            r == Ok::<(), Error>(()),
            write.ensures((set_write(self@, key, value),), ()),
    {
        let w = match attribute_route(key) {
            AttributeRoute::Classes => AttributeWrite::SetClasses(self.raw, value),
            AttributeRoute::InlineStyle => AttributeWrite::SetInlineStyle(self.raw, value),
            AttributeRoute::StringAttribute => AttributeWrite::SetString(self.raw, key, value),
        };
        write(w);
        Ok(())
    }

    fn remove_attribute<'a, W: FnOnce(AttributeWrite<'a>)>(&self, write: W, key: &'a str) -> (r: Result<()>)
        ensures
            r == Ok::<(), Error>(()),
            write.ensures((remove_write(self@, key),), ()),
    {
        let w = if removal_clears_classes(key) {
            AttributeWrite::SetClasses(self.raw, "")
        } else {
            AttributeWrite::Remove(self.raw, key)
        };
        write(w);
        Ok(())
    }
}

/// The replies of a host call about a node that takes a buffer.
pub open spec fn node_reply<F: Fn(i32, Vec<u8>) -> (Vec<u8>, i32)>(call: F, node: i32) -> spec_fn(
    Vec<u8>,
    (Vec<u8>, i32),
) -> bool {
    |b: Vec<u8>, rep: (Vec<u8>, i32)| call.ensures((node, b), rep)
}

/// The replies of a host call about a node's named attribute that takes a
/// buffer.
pub open spec fn attribute_reply<F: Fn(i32, &str, Vec<u8>) -> (Vec<u8>, i32)>(
    call: F,
    node: i32,
    key: &str,
) -> spec_fn(Vec<u8>, (Vec<u8>, i32)) -> bool {
    |b: Vec<u8>, rep: (Vec<u8>, i32)| call.ensures((node, key, b), rep)
}

/// Reads the tag name of a node through `call` (the host's `__GetTag`,
/// writing into the buffer it is given).
pub fn get_tag<F: Fn(i32, Vec<u8>) -> (Vec<u8>, i32)>(node: i32, call: F) -> (r: Result<Option<String>>)
    requires
        forall|n: i32, b: Vec<u8>| call.requires((n, b)),
    ensures
        exists|out: StringOut|
            string_out_outcome_by(node_reply(call, node), out) && string_result_spec("__GetTag", out, r),
        r matches Err(e) ==> (e == Error::InvalidUtf8("__GetTag") || (e matches Error::StringBufferTooSmall {
            binding: b,
            required,
            capacity,
        } && b == "__GetTag" && required > capacity)),
{
    let host = &call;
    let host_call = move |buf: Vec<u8>| -> (ret: (Vec<u8>, i32))
        requires
            host.requires((node, buf)),
        ensures
            host.ensures((node, buf), ret),
        { host(node, buf) };
    let ghost replies = call_reply(host_call);
    let r = string_return("__GetTag", host_call);
    proof {
        let out = choose|out: StringOut| string_out_outcome(host_call, out) && string_result_spec(
            "__GetTag",
            out,
            r,
        );
        lemma_string_out_outcome_weaken(replies, node_reply(call, node), out);
    }
    r
}

/// Reads the namespace URI recorded on an element (its `xmlns` attribute)
/// through `call` (the host's `__GetStringAttributeByName`).
pub fn get_namespace_uri<F: Fn(i32, &str, Vec<u8>) -> (Vec<u8>, i32)>(node: i32, call: F) -> (r: Result<
    Option<String>,
>)
    requires
        forall|n: i32, k: &str, b: Vec<u8>| call.requires((n, k, b)),
    ensures
        exists|out: StringOut|
            string_out_outcome_by(attribute_reply(call, node, "xmlns"), out) && string_result_spec(
                "__GetStringAttributeByName",
                out,
                r,
            ),
        r matches Err(e) ==> (e == Error::InvalidUtf8("__GetStringAttributeByName") || (e matches Error::StringBufferTooSmall {
            binding: b,
            required,
            capacity,
        } && b == "__GetStringAttributeByName" && required > capacity)),
{
    let host = &call;
    let host_call = move |buf: Vec<u8>| -> (ret: (Vec<u8>, i32))
        requires
            host.requires((node, "xmlns", buf)),
        ensures
            host.ensures((node, "xmlns", buf), ret),
        { host(node, "xmlns", buf) };
    let ghost replies = call_reply(host_call);
    let r = string_return("__GetStringAttributeByName", host_call);
    proof {
        let out = choose|out: StringOut| string_out_outcome(host_call, out) && string_result_spec(
            "__GetStringAttributeByName",
            out,
            r,
        );
        lemma_string_out_outcome_weaken(replies, attribute_reply(call, node, "xmlns"), out);
    }
    r
}

/// A host that holds the string `value` for a read: every reply hands back
/// a buffer as long as the one it got and the UTF-8 length of `value`, with
/// the UTF-8 bytes of `value` at the start of the buffer when they fit.
pub open spec fn replies_with_string(reply: spec_fn(Vec<u8>, (Vec<u8>, i32)) -> bool, value: Seq<char>) -> bool {
    forall|b: Vec<u8>, rep: (Vec<u8>, i32)|
        #[trigger] reply(b, rep) ==> rep.1 == encode_utf8(value).len() && rep.0@.len() == b@.len() && (
        encode_utf8(value).len() <= b@.len() ==> rep.0@.take(encode_utf8(value).len() as int)
            == encode_utf8(value))
}

/// A host that holds no value for a read: every reply is negative.
pub open spec fn replies_absent(reply: spec_fn(Vec<u8>, (Vec<u8>, i32)) -> bool) -> bool {
    forall|b: Vec<u8>, rep: (Vec<u8>, i32)| #[trigger] reply(b, rep) ==> rep.1 < 0
}

/// A string read from a host that holds a string gives that string back;
/// from a host that holds none, it gives `Ok(None)`.
pub proof fn lemma_string_read_back(
    reply: spec_fn(Vec<u8>, (Vec<u8>, i32)) -> bool,
    value: Seq<char>,
    binding: &'static str,
    out: StringOut,
    r: Result<Option<String>>,
)
    requires
        string_out_outcome_by(reply, out),
        string_result_spec(binding, out, r),
    ensures
        replies_with_string(reply, value) ==> (r matches Ok(Some(s)) && s@ == value),
        replies_absent(reply) ==> r matches Ok(None),
{
    let (b0, first) = choose|b0: Vec<u8>, first: (Vec<u8>, i32)|
        #![trigger reply(b0, first)]
        b0@ == zeros(SCRATCH_INITIAL_CAPACITY as nat) && reply(b0, first) && if first.1 >= 0 && first.1
            > first.0@.len() {
            exists|b2: Vec<u8>, second: (Vec<u8>, i32)|
                #![trigger reply(b2, second)]
                b2@ == grown(first.0@, first.1 as nat, 0u8) && reply(b2, second)
                    && crate::host_buffer::string_out_done(second.1, second.0@, true, out)
        } else {
            crate::host_buffer::string_out_done(first.1, first.0@, false, out)
        };
    if replies_with_string(reply, value) {
        let e = encode_utf8(value);
        encode_utf8_valid_utf8(value);
        encode_utf8_decode_utf8(value);
        assert(reply(b0, first));
        if first.1 >= 0 && first.1 > first.0@.len() {
            let (b2, second) = choose|b2: Vec<u8>, second: (Vec<u8>, i32)|
                #![trigger reply(b2, second)]
                b2@ == grown(first.0@, first.1 as nat, 0u8) && reply(b2, second)
                    && crate::host_buffer::string_out_done(second.1, second.0@, true, out);
            assert(reply(b2, second));
            assert(b2@.len() == e.len());
        }
    }
    if replies_absent(reply) {
        assert(reply(b0, first));
    }
}

/// Reading the namespace back: when the host's attribute reads for the
/// element's `xmlns` hand back the namespace that [`Element::new_ns`] wrote,
/// a result of [`get_namespace_uri`] is that namespace; when the element has
/// no `xmlns` attribute, it is `Ok(None)`.
pub proof fn lemma_namespace_reads_back<F: Fn(i32, &str, Vec<u8>) -> (Vec<u8>, i32)>(
    call: F,
    node: i32,
    namespace: &str,
    r: Result<Option<String>>,
)
    requires
        exists|out: StringOut|
            string_out_outcome_by(attribute_reply(call, node, "xmlns"), out) && string_result_spec(
                "__GetStringAttributeByName",
                out,
                r,
            ),
    ensures
        replies_with_string(attribute_reply(call, node, "xmlns"), namespace@) ==> (r matches Ok(Some(s))
            && s@ == namespace@),
        replies_absent(attribute_reply(call, node, "xmlns")) ==> r matches Ok(None),
{
    let out = choose|out: StringOut|
        string_out_outcome_by(attribute_reply(call, node, "xmlns"), out) && string_result_spec(
            "__GetStringAttributeByName",
            out,
            r,
        );
    lemma_string_read_back(attribute_reply(call, node, "xmlns"), namespace@, "__GetStringAttributeByName", out, r);
}

/// Reads the type of an event, such as `tap`, through `call` (the host's
/// `__GetEventType`).
pub fn event_type<F: Fn(i32, Vec<u8>) -> (Vec<u8>, i32)>(event: i32, call: F) -> (r: Result<Option<String>>)
    requires
        forall|n: i32, b: Vec<u8>| call.requires((n, b)),
    ensures
        exists|out: StringOut|
            string_out_outcome_by(node_reply(call, event), out) && string_result_spec("__GetEventType", out, r),
        r matches Err(e) ==> (e == Error::InvalidUtf8("__GetEventType") || (e matches Error::StringBufferTooSmall {
            binding: b,
            required,
            capacity,
        } && b == "__GetEventType" && required > capacity)),
{
    let host = &call;
    let host_call = move |buf: Vec<u8>| -> (ret: (Vec<u8>, i32))
        requires
            host.requires((event, buf)),
        ensures
            host.ensures((event, buf), ret),
        { host(event, buf) };
    let ghost replies = call_reply(host_call);
    let r = string_return("__GetEventType", host_call);
    proof {
        let out = choose|out: StringOut| string_out_outcome(host_call, out) && string_result_spec(
            "__GetEventType",
            out,
            r,
        );
        lemma_string_out_outcome_weaken(replies, node_reply(call, event), out);
    }
    r
}


/// The borrowed result for lent bytes (see [`borrowed_str_result`]).
pub open spec fn borrowed_result_spec(binding: &'static str, bytes: Option<Seq<u8>>, x: Result<Option<&str>>) -> bool {
    match bytes {
        None => x matches Ok(None),
        Some(b) => if valid_utf8(b) {
            x matches Ok(Some(s)) && s@ == decode_utf8(b)
        } else {
            x == Err::<Option<&str>, Error>(Error::InvalidUtf8(binding))
        },
    }
}

/// The views of optional borrowed bytes.
pub open spec fn bytes_view(bytes: Option<&[u8]>) -> Option<Seq<u8>> {
    match bytes {
        Some(b) => Some(b@),
        None => None,
    }
}

/// What `f` returns for lent bytes once they are decoded for `binding`.
pub open spec fn decode_to<R, G: FnOnce(Result<Option<&str>>) -> R>(binding: &'static str, f: G) -> spec_fn(
    Option<Seq<u8>>,
    R,
) -> bool {
    |lent: Option<Seq<u8>>, r: R|
        exists|x: Result<Option<&str>>|
            #![trigger f.ensures((x,), r)]
            borrowed_result_spec(binding, lent, x) && f.ensures((x,), r)
}

/// Calls a string-returning host binding and hands `f` the borrowed text,
/// decoded with [`borrowed_str_result`], without copying it out.
pub fn string_return_with<R, F: Fn(Vec<u8>) -> (Vec<u8>, i32), G: FnOnce(Result<Option<&str>>) -> R>(
    binding: &'static str,
    call: F,
    f: G,
) -> (r: R)
    requires
        forall|b: Vec<u8>| call.requires((b,)),
        forall|x: Result<Option<&str>>| f.requires((x,)),
    ensures
        string_borrow_outcome_by(call_reply(call), decode_to(binding, f), r),
{
    let g = |bytes: Option<&[u8]>| -> (out: R)
        requires
            forall|x: Result<Option<&str>>| f.requires((x,)),
        ensures
            exists|x: Result<Option<&str>>|
                borrowed_result_spec(binding, bytes_view(bytes), x) && f.ensures((x,), out),
        {
            let x = borrowed_str_result(binding, bytes);
            let ghost gx = x;
            let out = f(x);
            assert(borrowed_result_spec(binding, bytes_view(bytes), gx) && f.ensures((gx,), out));
            out
        };
    let ghost lend = lend_to(g);
    let r = string_borrow_call(call, g);
    proof {
        assert forall|lent: Option<Seq<u8>>| #[trigger] lend(lent, r) implies decode_to(binding, f)(
            lent,
            r,
        ) by {
            match lent {
                None => {
                    assert(g.ensures((None,), r));
                },
                Some(b) => {
                    let sl = choose|sl: &[u8]| sl@ == b && g.ensures((Some(sl),), r);
                    assert(bytes_view(Some(sl)) == Some(b));
                },
            }
        }
        lemma_string_borrow_outcome_weaken(call_reply(call), call_reply(call), lend, decode_to(binding, f), r);
    }
    r
}

/// Borrowing variant of [`get_tag`]: `f` sees the tag name while the
/// buffer lives.
pub fn get_tag_with<R, F: Fn(i32, Vec<u8>) -> (Vec<u8>, i32), G: FnOnce(Result<Option<&str>>) -> R>(
    node: i32,
    call: F,
    f: G,
) -> (r: R)
    requires
        forall|n: i32, b: Vec<u8>| call.requires((n, b)),
        forall|x: Result<Option<&str>>| f.requires((x,)),
    ensures
        string_borrow_outcome_by(node_reply(call, node), decode_to("__GetTag", f), r),
{
    let host = &call;
    let host_call = move |buf: Vec<u8>| -> (ret: (Vec<u8>, i32))
        requires
            host.requires((node, buf)),
        ensures
            host.ensures((node, buf), ret),
        { host(node, buf) };
    let ghost replies = call_reply(host_call);
    let r = string_return_with("__GetTag", host_call, f);
    proof {
        lemma_string_borrow_outcome_weaken(
            replies,
            node_reply(call, node),
            decode_to("__GetTag", f),
            decode_to("__GetTag", f),
            r,
        );
    }
    r
}

/// Borrowing variant of [`get_namespace_uri`].
pub fn get_namespace_uri_with<
    R,
    F: Fn(i32, &str, Vec<u8>) -> (Vec<u8>, i32),
    G: FnOnce(Result<Option<&str>>) -> R,
>(node: i32, call: F, f: G) -> (r: R)
    requires
        forall|n: i32, k: &str, b: Vec<u8>| call.requires((n, k, b)),
        forall|x: Result<Option<&str>>| f.requires((x,)),
    ensures
        string_borrow_outcome_by(attribute_reply(call, node, "xmlns"), decode_to("__GetStringAttributeByName", f), r),
{
    let host = &call;
    let host_call = move |buf: Vec<u8>| -> (ret: (Vec<u8>, i32))
        requires
            host.requires((node, "xmlns", buf)),
        ensures
            host.ensures((node, "xmlns", buf), ret),
        { host(node, "xmlns", buf) };
    let ghost replies = call_reply(host_call);
    let r = string_return_with("__GetStringAttributeByName", host_call, f);
    proof {
        lemma_string_borrow_outcome_weaken(
            replies,
            attribute_reply(call, node, "xmlns"),
            decode_to("__GetStringAttributeByName", f),
            decode_to("__GetStringAttributeByName", f),
            r,
        );
    }
    r
}

/// Borrowing variant of [`event_type`].
pub fn event_type_with<R, F: Fn(i32, Vec<u8>) -> (Vec<u8>, i32), G: FnOnce(Result<Option<&str>>) -> R>(
    event: i32,
    call: F,
    f: G,
) -> (r: R)
    requires
        forall|n: i32, b: Vec<u8>| call.requires((n, b)),
        forall|x: Result<Option<&str>>| f.requires((x,)),
    ensures
        string_borrow_outcome_by(node_reply(call, event), decode_to("__GetEventType", f), r),
{
    let host = &call;
    let host_call = move |buf: Vec<u8>| -> (ret: (Vec<u8>, i32))
        requires
            host.requires((event, buf)),
        ensures
            host.ensures((event, buf), ret),
        { host(event, buf) };
    let ghost replies = call_reply(host_call);
    let r = string_return_with("__GetEventType", host_call, f);
    proof {
        lemma_string_borrow_outcome_weaken(
            replies,
            node_reply(call, event),
            decode_to("__GetEventType", f),
            decode_to("__GetEventType", f),
            r,
        );
    }
    r
}

} // verus!
