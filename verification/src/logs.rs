//! Which toolkit log messages the bar keeps quiet.

use vstd::prelude::*;
use crate::text::{contains, occurs_in, same_text};
use crate::args::opt_view;

verus! {

/// The level of a log message.
#[derive(Clone, Copy, Debug, PartialEq, Eq, Structural)]
pub enum LogLevel {
    Error,
    Critical,
    Warning,
    Message,
    Info,
    Debug,
}

/// The views of a message's fields: key and value.
pub open spec fn field_views(fs: Seq<(String, Option<String>)>) -> Seq<(Seq<char>, Option<Seq<char>>)> {
    fs.map_values(|p: (String, Option<String>)| (p.0@, opt_view(p.1)))
}

/// The value of the last field with key `key`; none when there is no such
/// field or that field has no text value.
pub open spec fn last_value(fs: Seq<(Seq<char>, Option<Seq<char>>)>, key: Seq<char>) -> Option<
    Seq<char>,
>
    decreases fs.len(),
{
    if fs.len() == 0 {
        None
    } else if fs.last().0 == key {
        fs.last().1
    } else {
        last_value(fs.drop_last(), key)
    }
}

/// Whether a message is kept quiet: debug and info messages are, and so is
/// the toolkit's warning that it cannot get the inhibit portal's version.
pub open spec fn silenced(level: LogLevel, fs: Seq<(Seq<char>, Option<Seq<char>>)>) -> bool {
    ||| level == LogLevel::Debug
    ||| level == LogLevel::Info
    ||| {
        &&& level == LogLevel::Warning
        &&& last_value(fs, "GLIB_DOMAIN"@) == Some("Gdk"@)
        &&& last_value(fs, "MESSAGE"@) matches Some(m)
        &&& occurs_in(m, "Cannot get portal org.freedesktop.portal.Inhibit version"@)
    }
}

fn opt_clone(o: &Option<String>) -> (res: Option<String>)
    ensures
        opt_view(res) == opt_view(*o),
{
    match o {
        Some(s) => Some(s.clone()),
        None => None,
    }
}

/// Whether a message with this level and these fields is kept quiet (see
/// `silenced`).
pub fn is_silenced(level: LogLevel, fields: &Vec<(String, Option<String>)>) -> (res: bool)
    ensures
        res == silenced(level, field_views(fields@)),
{
    match level {
        LogLevel::Debug | LogLevel::Info => return true,
        _ => {},
    }
    let ghost fv = field_views(fields@);
    let mut domain: Option<String> = None;
    let mut message: Option<String> = None;
    let mut i: usize = 0;
    assert(fv.take(0) =~= Seq::<(Seq<char>, Option<Seq<char>>)>::empty());
    while i < fields.len()
        invariant
            fv == field_views(fields@),
            i <= fields.len(),
            opt_view(domain) == last_value(fv.take(i as int), "GLIB_DOMAIN"@),
            opt_view(message) == last_value(fv.take(i as int), "MESSAGE"@),
        decreases fields.len() - i,
    {
        assert(fv.take(i + 1).drop_last() =~= fv.take(i as int));
        assert(fv.take(i + 1).last() == fv[i as int]);
        let key = fields[i].0.as_str();
        proof {
            reveal_strlit("GLIB_DOMAIN");
            reveal_strlit("MESSAGE");
            assert("GLIB_DOMAIN"@.len() != "MESSAGE"@.len());
        }
        if same_text(key, "GLIB_DOMAIN") {
            domain = opt_clone(&fields[i].1);
        } else if same_text(key, "MESSAGE") {
            message = opt_clone(&fields[i].1);
        }
        i = i + 1;
    }
    assert(fv.take(fields.len() as int) =~= fv);
    if level != LogLevel::Warning {
        return false;
    }
    let is_gdk = match &domain {
        Some(d) => same_text(d.as_str(), "Gdk"),
        None => false,
    };
    if !is_gdk {
        return false;
    }
    match &message {
        Some(m) => contains(m.as_str(), "Cannot get portal org.freedesktop.portal.Inhibit version"),
        None => false,
    }
}


/// Debug and info messages are always kept quiet; messages of any level
/// other than debug, info and warning (errors, criticals, plain messages)
/// never are; and a warning is kept quiet only when its last `GLIB_DOMAIN`
/// field is `Gdk` and its last `MESSAGE` field holds the inhibit-portal text.
pub proof fn lemma_only_noise_is_silenced(level: LogLevel, fs: Seq<(Seq<char>, Option<Seq<char>>)>)
    ensures
        level == LogLevel::Debug || level == LogLevel::Info ==> silenced(level, fs),
        level == LogLevel::Error || level == LogLevel::Critical || level == LogLevel::Message
            ==> !silenced(level, fs),
        level == LogLevel::Warning && silenced(level, fs) ==> {
            &&& last_value(fs, "GLIB_DOMAIN"@) == Some("Gdk"@)
            &&& last_value(fs, "MESSAGE"@) matches Some(m)
            &&& occurs_in(m, "Cannot get portal org.freedesktop.portal.Inhibit version"@)
        },
{
}

} // verus!
