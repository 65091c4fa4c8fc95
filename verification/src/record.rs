//! One process record: identifier, display name, optional working
//! directory, optional parent identifier.
//!
//! A record is captured once, at the snapshot instant, and never mutated
//! afterwards. Attribute lookups that failed degrade the single record: a
//! failed name lookup yields the fallback name, a failed (or empty)
//! working-directory lookup yields an absent directory, and a failed
//! parent lookup yields an absent parent.

use vstd::prelude::*;

use crate::decimal::dec_i32;
use crate::decimal::append_dec_i32;

verus! {

/// The mathematical content of one process record.
pub struct RecordView {
    pub pid: i32,
    pub name: Seq<char>,
    pub cwd: Option<Seq<char>>,
    pub parent: Option<i32>,
}

/// One observed process, as captured at the snapshot instant.
pub struct ProcInfo {
    pub(crate) pid: i32,
    pub(crate) name: String,
    pub(crate) path: Option<String>,
    pub(crate) parent: Option<i32>,
}

impl View for ProcInfo {
    type V = RecordView;

    closed spec fn view(&self) -> RecordView {
        RecordView {
            pid: self.pid,
            name: self.name@,
            cwd: match self.path {
                Some(p) => Some(p@),
                None => None,
            },
            parent: self.parent,
        }
    }
}

/// The display name a record falls back to when the name lookup failed.
pub open spec fn fallback_name() -> Seq<char> {
    "Unknown"@
}

/// The working directory as the record stores it: an inaccessible lookup
/// and an empty path both degrade to an absent directory.
pub open spec fn normalized_cwd(path: Option<Seq<char>>) -> Option<Seq<char>> {
    match path {
        Some(p) => if p.len() > 0 {
            Some(p)
        } else {
            None
        },
        None => None,
    }
}

impl ProcInfo {
    /// Captures one record from the values the per-process lookups
    /// returned; `None` stands for a lookup that failed. A failing name
    /// lookup falls back to the sentinel name, and an empty working
    /// directory is treated as absent.
    pub fn new(pid: i32, name: Option<String>, path: Option<String>, parent: Option<i32>) -> (r:
        Self)
        ensures
            r@.pid == pid,
            r@.name == match name {
                Some(n) => n@,
                None => fallback_name(),
            },
            r@.cwd == normalized_cwd(
                match path {
                    Some(p) => Some(p@),
                    None => None,
                },
            ),
            r@.parent == parent,
    {
        let name_text: String = match name {
            Some(n) => n,
            None => String::from_str("Unknown"),
        };
        let path_norm: Option<String> = match path {
            Some(p) => if p.as_str().is_empty() {
                None
            } else {
                Some(p)
            },
            None => None,
        };
        ProcInfo { pid, name: name_text, path: path_norm, parent }
    }

    /// The process identifier this record was captured for.
    pub fn pid(&self) -> (p: i32)
        ensures
            p == self@.pid,
    {
        self.pid
    }

    /// The parent identifier, absent when the parent lookup failed.
    pub fn parent_id(&self) -> (p: Option<i32>)
        ensures
            p == self@.parent,
    {
        self.parent
    }
}

/// The working-directory segment of a rendered line: present exactly when
/// the record holds a non-empty directory, and never an empty `", Path: "`
/// tail.
pub open spec fn path_part(cwd: Option<Seq<char>>) -> Seq<char> {
    match cwd {
        Some(p) => if p.len() > 0 {
            ", Path: "@ + p
        } else {
            Seq::empty()
        },
        None => Seq::empty(),
    }
}

/// The rendered attributes of one record: always the identifier and the
/// display name, then the working directory when there is one.
pub open spec fn line_chars(r: RecordView) -> Seq<char> {
    "PID: "@ + dec_i32(r.pid) + ", Name: "@ + r.name + path_part(r.cwd)
}

impl ProcInfo {
    /// Appends this record's rendered attributes to `out`.
    pub fn append_line(&self, out: &mut String)
        ensures
            final(out)@ == old(out)@ + line_chars(self@),
    {
        out.append("PID: ");
        append_dec_i32(out, self.pid);
        out.append(", Name: ");
        out.append(self.name.as_str());
        match &self.path {
            Some(p) => {
                if !p.as_str().is_empty() {
                    out.append(", Path: ");
                    out.append(p.as_str());
                }
            },
            None => {},
        }
        assert(final(out)@ =~= old(out)@ + line_chars(self@));
    }
}

/// A record with no usable working directory renders as the identifier and
/// name fields alone: no path segment, empty or otherwise, follows them.
pub proof fn lemma_absent_path_omitted(r: RecordView)
    requires
        match r.cwd {
            Some(p) => p.len() == 0,
            None => true,
        },
    ensures
        line_chars(r) == "PID: "@ + dec_i32(r.pid) + ", Name: "@ + r.name,
{
    assert(path_part(r.cwd) =~= Seq::<char>::empty());
    assert(line_chars(r) =~= "PID: "@ + dec_i32(r.pid) + ", Name: "@ + r.name);
}

} // verus!
