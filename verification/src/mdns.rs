//! The registry of mDNS services that a device advertises: which names are
//! registered, and the handle by which each advertisement is cancelled.

use vstd::prelude::*;
use std::sync::mpsc::SyncSender;
use crate::error::{Error, ErrorCode};

verus! {

/// The sending half of a bounded channel of the standard library. Nothing
/// is known of what such a value holds.
#[verifier::external_type_specification]
#[verifier::external_body]
#[verifier::reject_recursive_types(T)]
pub struct ExSyncSender<T>(SyncSender<T>);

/// What a device says of itself.
#[derive(Clone, Copy, Debug, PartialEq, Eq, Structural)]
pub struct BasicInfoConfig {
    pub vid: u16,
    pub pid: u16,
    pub hw_ver: u16,
    pub sw_ver: u32,
}

/// One registered service: its name and the handle that cancels it.
pub struct Registration {
    pub name: String,
    pub cancellation_notice: SyncSender<()>,
}

/// The services registered for one device.
pub struct MdnsService<'a> {
    dev_det: &'a BasicInfoConfig,
    matter_port: u16,
    services: Vec<Registration>,
}

/// Sends the cancellation notice on the handle with
/// `SyncSender::try_send`, which never waits, and says whether it was
/// taken; the handle is used up. Whether the notice is taken depends on
/// the receiving side, so nothing is claimed of the answer.
#[verifier::external_body]
fn send_notice(handle: SyncSender<()>) -> (sent: bool) {
    handle.try_send(()).is_ok()
}

/// `str::strip_prefix` with one character as the prefix: the rest of the
/// text where it starts with that character, else nothing.
#[verifier::external_body]
fn strip_prefix_char<'a>(text: &'a str, prefix: char) -> (rest: Option<&'a str>)
    ensures
        match rest {
            Some(r) => text@.len() > 0 && text@[0] == prefix && r@ == text@.subrange(
                1,
                text@.len() as int,
            ),
            None => !(text@.len() > 0 && text@[0] == prefix),
        },
{
    text.strip_prefix(prefix)
}

/// A label without its leading underscore, if it has one.
pub open spec fn bare_label(text: Seq<char>) -> Seq<char> {
    if text.len() > 0 && text[0] == '_' {
        text.subrange(1, text.len() as int)
    } else {
        text
    }
}

/// The label of a service, protocol or subtype as the advertiser wants it:
/// without the leading underscore of the DNS form.
pub fn service_label<'a>(text: &'a str) -> (label: &'a str)
    ensures
        label@ == bare_label(text@),
{
    match strip_prefix_char(text, '_') {
        Some(rest) => rest,
        None => text,
    }
}

/// What removing a registered service returns, given whether its
/// cancellation notice was taken.
pub fn cancellation_result(sent: bool) -> (r: Result<(), Error>)
    ensures
        r == (if sent {
            Ok::<(), Error>(())
        } else {
            Err(Error { code: ErrorCode::MdnsError })
        }),
{
    if sent {
        Ok(())
    } else {
        Err(Error::new(ErrorCode::MdnsError))
    }
}

/// The names of a run of registrations.
pub open spec fn names_of(services: Seq<Registration>) -> Seq<Seq<char>> {
    Seq::new(services.len(), |i: int| services[i].name@)
}

/// The names without `name`, which occurs at most once.
pub open spec fn without(names: Seq<Seq<char>>, name: Seq<char>) -> Seq<Seq<char>> {
    if names.contains(name) {
        names.remove(names.index_of(name))
    } else {
        names
    }
}

/// The registration under `name`, if there is one.
pub open spec fn registered(services: Seq<Registration>, name: Seq<char>) -> Option<Registration> {
    if names_of(services).contains(name) {
        Some(services[names_of(services).index_of(name)])
    } else {
        None
    }
}

/// The registrations without the one under `name`; the others stay as
/// they are, each with its handle, in their order.
pub open spec fn dropped(services: Seq<Registration>, name: Seq<char>) -> Seq<Registration> {
    if names_of(services).contains(name) {
        services.remove(names_of(services).index_of(name))
    } else {
        services
    }
}

/// Dropping a registration drops its name and no other.
pub proof fn lemma_dropped_names(services: Seq<Registration>, name: Seq<char>)
    requires
        names_of(services).no_duplicates(),
    ensures
        names_of(dropped(services, name)) == without(names_of(services), name),
        names_of(dropped(services, name)).no_duplicates(),
        !names_of(dropped(services, name)).contains(name),
{
    let names = names_of(services);
    let rest = names_of(dropped(services, name));
    assert(rest =~= without(names, name));
    if names.contains(name) {
        let i = names.index_of(name);
        assert forall|a: int, b: int| 0 <= a < rest.len() && 0 <= b < rest.len() && a != b implies rest[a] != rest[b] by {
            let a0 = if a < i { a } else { a + 1 };
            let b0 = if b < i { b } else { b + 1 };
            assert(rest[a] == names[a0] && rest[b] == names[b0]);
        }
        if rest.contains(name) {
            let k = rest.index_of(name);
            let k0 = if k < i { k } else { k + 1 };
            assert(names[k0] == name);
        }
    }
}

impl<'a> MdnsService<'a> {
    /// The registrations, in the order registered: each name with the
    /// handle that cancels its advertisement.
    pub closed spec fn registrations(&self) -> Seq<Registration> {
        self.services@
    }

    /// The registered names, in the order registered.
    pub open spec fn names(&self) -> Seq<Seq<char>> {
        names_of(self.registrations())
    }

    /// The port the device listens on.
    pub closed spec fn port(&self) -> u16 {
        self.matter_port
    }

    /// The device described.
    pub closed spec fn device(&self) -> BasicInfoConfig {
        *self.dev_det
    }

    /// No name is registered twice.
    pub open spec fn wf(&self) -> bool {
        self.names().no_duplicates()
    }

    /// A registry without services. The first four parameters are taken
    /// for compatibility with other registries and play no part.
    pub fn new(
        _id: u16,
        _hostname: &str,
        _ip: [u8; 4],
        _ipv6: Option<([u8; 16], u32)>,
        dev_det: &'a BasicInfoConfig,
        matter_port: u16,
    ) -> (s: Self)
        ensures
            s.wf(),
            s.registrations() == Seq::<Registration>::empty(),
            s.port() == matter_port,
            s.device() == *dev_det,
    {
        Self::native_new(dev_det, matter_port)
    }

    /// A registry without services.
    pub fn native_new(dev_det: &'a BasicInfoConfig, matter_port: u16) -> (s: Self)
        ensures
            s.wf(),
            s.registrations() == Seq::<Registration>::empty(),
            s.port() == matter_port,
            s.device() == *dev_det,
    {
        MdnsService { dev_det, matter_port, services: Vec::new() }
    }

    /// The port the device listens on.
    pub fn matter_port(&self) -> (p: u16)
        ensures
            p == self.port(),
    {
        self.matter_port
    }

    /// The device described.
    pub fn dev_det(&self) -> (d: &'a BasicInfoConfig)
        ensures
            *d == self.device(),
    {
        self.dev_det
    }

    /// Where `name` is registered, if it is.
    fn position(&self, name: &str) -> (r: Option<usize>)
        ensures
            match r {
                Some(i) => i < self.names().len() && self.names()[i as int] == name@,
                None => !self.names().contains(name@),
            },
    {
        let key = name.to_owned();
        let mut i: usize = 0;
        while i < self.services.len()
            invariant
                i <= self.services.len(),
                key@ == name@,
                forall|j: int| 0 <= j < i ==> self.names()[j] != name@,
            decreases self.services.len() - i,
        {
            if self.services[i].name == key {
                return Some(i);
            }
            i += 1;
        }
        None
    }

    /// Whether a service is registered under `name`.
    pub fn is_registered(&self, name: &str) -> (b: bool)
        ensures
            b == self.names().contains(name@),
    {
        self.position(name).is_some()
    }

    /// The number of registered services.
    pub fn len(&self) -> (n: usize)
        ensures
            n == self.names().len(),
    {
        self.services.len()
    }

    /// Takes the registration of `name` out, if there is one, and hands
    /// it over; the other registrations stay as they are.
    fn take(&mut self, name: &str) -> (r: Option<Registration>)
        requires
            old(self).wf(),
        ensures
            final(self).wf(),
            final(self).port() == old(self).port(),
            final(self).device() == old(self).device(),
            r == registered(old(self).registrations(), name@),
            final(self).registrations() == dropped(old(self).registrations(), name@),
            final(self).names() == without(old(self).names(), name@),
            !final(self).names().contains(name@),
    {
        proof {
            lemma_dropped_names(self.registrations(), name@);
        }
        match self.position(name) {
            Some(i) => {
                proof {
                    assert(self.names().index_of(name@) == i as int);
                }
                let taken = self.services.remove(i);
                Some(taken)
            },
            None => None,
        }
    }

    /// Deregisters the service `name`: its registration is taken out and
    /// the handle it held is used up in telling the advertisement to stop.
    /// The other registrations stay as they are, each with its handle.
    ///
    /// A name that is not registered changes nothing and succeeds. For a
    /// registered name the result is `MdnsError` where the advertisement
    /// could not be told, which the receiving side decides; the
    /// registration is dropped either way.
    pub fn remove(&mut self, name: &str) -> (r: Result<(), Error>)
        requires
            old(self).wf(),
        ensures
            final(self).wf(),
            final(self).port() == old(self).port(),
            final(self).device() == old(self).device(),
            final(self).registrations() == dropped(old(self).registrations(), name@),
            final(self).names() == without(old(self).names(), name@),
            !final(self).names().contains(name@),
            !old(self).names().contains(name@) ==> r is Ok,
            r is Err ==> r == Err::<(), Error>(Error { code: ErrorCode::MdnsError }),
    {
        match self.take(name) {
            Some(registration) => cancellation_result(
                send_notice(registration.cancellation_notice),
            ),
            None => Ok(()),
        }
    }

    /// Registers the service `name` with the handle that cancels its
    /// advertisement: the new registration comes last and holds that
    /// handle. A service registered under the same name before is
    /// deregistered first, whether or not it could be told to stop; the
    /// other registrations stay as they are.
    pub fn add(&mut self, name: &str, cancellation_notice: SyncSender<()>)
        requires
            old(self).wf(),
        ensures
            final(self).wf(),
            final(self).port() == old(self).port(),
            final(self).device() == old(self).device(),
            final(self).registrations().len() == dropped(old(self).registrations(), name@).len()
                + 1,
            final(self).registrations().drop_last() == dropped(
                old(self).registrations(),
                name@,
            ),
            final(self).registrations().last().name@ == name@,
            final(self).registrations().last().cancellation_notice == cancellation_notice,
            final(self).names() == without(old(self).names(), name@).push(name@),
    {
        let _ = self.remove(name);
        let ghost kept = self.registrations();
        self.services.push(Registration { name: name.to_owned(), cancellation_notice });
        proof {
            assert(self.registrations().drop_last() =~= kept);
            assert(self.names() =~= names_of(kept).push(name@));
        }
    }
}

} // verus!
