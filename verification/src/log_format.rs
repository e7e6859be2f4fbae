//! Log line text as associated functions of [`LogFormat`].
use vstd::prelude::*;
use crate::provided::{Tree, TreeView};
use crate::debug_log::{call_text, joined, quoted, clippable, tree_text, lossy_text, format_arg, format_str_arg, try_format_arg};

verus! {

/// Formats log lines.
pub struct LogFormat;

impl LogFormat {
    /// `Class::fn(arg, ...)`, the arguments as given.
    pub fn call(class: &str, fn_name: &str, args: &[String]) -> (r: String)
        ensures
            r@ == call_text(class@, fn_name@, Seq::new(args@.len(), |i: int| args@[i]@)),
    {
        let ghost parts = Seq::new(args@.len(), |i: int| args@[i]@);
        let mut s = String::from_str(class);
        s.append("::");
        s.append(fn_name);
        s.append("(");
        let ghost head = s@;
        let mut i: usize = 0;
        assert(parts.take(0) =~= Seq::<Seq<char>>::empty());
        assert(s@ =~= head + joined(parts.take(0)));
        while i < args.len()
            invariant
                parts == Seq::new(args@.len(), |i: int| args@[i]@),
                i <= args@.len(),
                s@ == head + joined(parts.take(i as int)),
            decreases args@.len() - i,
        {
            if i > 0 {
                s.append(", ");
            }
            s.append(args[i].as_str());
            proof {
                assert(parts.take(i + 1).drop_last() =~= parts.take(i as int));
                assert(parts.take(i + 1).last() == args@[i as int]@);
                if i == 0 {
                    assert(parts.take(1) =~= seq![args@[0]@]);
                }
            }
            assert(s@ =~= head + joined(parts.take(i + 1)));
            i = i + 1;
        }
        s.append(")");
        assert(parts.take(i as int) =~= parts);
        assert(s@ =~= call_text(class@, fn_name@, parts));
        s
    }

    /// How a tree shows in a log line.
    pub fn format_arg(value: &Tree) -> (r: String)
        requires
            value@ matches TreeView::Scalar(b) ==> clippable(lossy_text(b)),
        ensures
            r@ == tree_text(value@),
    {
        format_arg(value)
    }

    /// [`LogFormat::format_arg`] where its text can be clipped; `None` for a
    /// scalar whose text is past 50 bytes without a character boundary at byte 47.
    pub fn try_format_arg(value: &Tree) -> (r: Option<String>)
        ensures
            match value@ {
                TreeView::Scalar(b) => if clippable(lossy_text(b)) {
                    r matches Some(s) && s@ == tree_text(value@)
                } else {
                    r is None
                },
                _ => r matches Some(s) && s@ == tree_text(value@),
            },
    {
        if let Tree::Scalar(b) = value {
            if try_format_arg(value).is_none() {
                return None;
            }
            assert(clippable(lossy_text(b@)));
        }
        Some(Self::format_arg(value))
    }

    /// A text quoted for a log line.
    pub fn format_str_arg(s: &str) -> (r: String)
        requires
            clippable(s@),
        ensures
            r@ == quoted(s@),
    {
        format_str_arg(s)
    }
}

} // verus!
