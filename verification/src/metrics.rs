//! Plain-text rendering of metric lines in the exposition format: a name,
//! an optional brace-wrapped label set, and a value, one line per metric.

use vstd::prelude::*;
use vstd::string::StringExecFns;

verus! {

/// The label set of one metric line: the key/value pairs of the metric's
/// own key, shared by reference, plus an optional export-specific extra
/// pair (a quantile tag, for instance).
#[derive(Clone, Copy)]
pub struct FmtLabels<'a> {
    pub base: &'a Vec<(String, String)>,
    pub extra: Option<(&'a str, &'a str)>,
}

/// One rendered `key="value"` pair.
pub open spec fn pair_text_s(k: Seq<char>, v: Seq<char>) -> Seq<char> {
    k + "=\""@ + v + "\""@
}

/// The pairs from position `i` on, comma-separated; `first` says whether
/// anything was already rendered before them.
pub open spec fn pairs_from_s(pairs: Seq<(String, String)>, i: int, first: bool) -> Seq<char>
    decreases pairs.len() - i,
{
    if i < 0 || i >= pairs.len() {
        Seq::empty()
    } else {
        let p = pair_text_s(pairs[i].0@, pairs[i].1@);
        (if first {
            p
        } else {
            ", "@ + p
        }) + pairs_from_s(pairs, i + 1, false)
    }
}

impl<'a> FmtLabels<'a> {
    /// The whole rendered label set: nothing at all when empty, otherwise
    /// the extra pair first and then the base pairs inside braces.
    pub open spec fn text_s(&self) -> Seq<char> {
        if self.base@.len() == 0 && self.extra is None {
            Seq::empty()
        } else {
            "{"@ + (match self.extra {
                Some(kv) => pair_text_s(kv.0@, kv.1@) + pairs_from_s(self.base@, 0, false),
                None => pairs_from_s(self.base@, 0, true),
            }) + "}"@
        }
    }

    pub fn is_empty(&self) -> (r: bool)
        ensures
            r == (self.base@.len() == 0 && self.extra is None),
    {
        self.base.len() == 0 && self.extra.is_none()
    }

    /// The same base pairs with a new export-specific extra pair.
    pub fn with_extra(&self, k: &'a str, v: &'a str) -> (r: FmtLabels<'a>)
        ensures
            r.base == self.base,
            r.extra is Some,
            (r.extra->0).0@ == k@,
            (r.extra->0).1@ == v@,
    {
        FmtLabels { base: self.base, extra: Some((k, v)) }
    }

    /// Render the label set.
    pub fn to_text(&self) -> (res: String)
        ensures
            res@ == self.text_s(),
    {
        let mut out = String::new();
        if self.is_empty() {
            return out;
        }
        out.append("{");
        let mut first = true;
        match self.extra {
            Some((k, v)) => {
                out.append(k);
                out.append("=\"");
                out.append(v);
                out.append("\"");
                first = false;
            },
            None => {},
        }
        proof {
            if self.extra is Some {
                assert(out@ =~= "{"@ + pair_text_s((self.extra->0).0@, (self.extra->0).1@));
            }
        }
        let mut i: usize = 0;
        while i < self.base.len()
            invariant
                0 <= i <= self.base@.len(),
                first == (self.extra is None && i == 0),
                !(self.base@.len() == 0 && self.extra is None),
                out@ + pairs_from_s(self.base@, i as int, first) + "}"@ =~= self.text_s(),
            decreases self.base@.len() - i,
        {
            let ghost pre = out@;
            if !first {
                out.append(", ");
            }
            let pair = &self.base[i];
            out.append(pair.0.as_str());
            out.append("=\"");
            out.append(pair.1.as_str());
            out.append("\"");
            proof {
                let p = pair_text_s(self.base@[i as int].0@, self.base@[i as int].1@);
                if first {
                    assert(out@ =~= pre + p);
                } else {
                    assert(out@ =~= pre + (", "@ + p));
                }
                assert(out@ + pairs_from_s(self.base@, i as int + 1, false) + "}"@ =~= self.text_s());
            }
            first = false;
            i = i + 1;
        }
        out.append("}");
        proof {
            assert(out@ =~= self.text_s());
        }
        out
    }
}

/// Append one rendered metric line: the name, the label set, a space, the
/// value, and a newline.
pub fn write_metric(out: &mut String, name: &str, labels: &FmtLabels, v: &str)
    ensures
        final(out)@ == old(out)@ + name@ + labels.text_s() + " "@ + v@ + "\n"@,
{
    out.append(name);
    let lt = labels.to_text();
    out.append(lt.as_str());
    out.append(" ");
    out.append(v);
    out.append("\n");
    proof {
        assert(out@ =~= old(out)@ + name@ + labels.text_s() + " "@ + v@ + "\n"@);
    }
}

} // verus!
