//! Post-processing of a rendered graph image: injecting a stylesheet
//! reference into the layout tool's output.

use vstd::prelude::*;

verus! {

/// The stylesheet reference line injected into a rendered image.
pub open spec fn svg_link_line() -> Seq<char> {
    "<link xmlns=\"http://www.w3.org/1999/xhtml\" rel=\"stylesheet\" href=\"styles.css\" type=\"text/css\" />"@
}

/// The position the stylesheet reference is injected at.
pub open spec fn svg_link_position() -> int {
    9
}

/// Injects the stylesheet reference line in front of the tenth line of a
/// rendered image; an image with fewer lines is returned unchanged.
pub fn add_link_to_svg(lines: &Vec<String>) -> (r: Vec<String>)
    ensures
        r.deep_view() == if lines.deep_view().len() > svg_link_position() {
            lines.deep_view().take(svg_link_position()) + seq![svg_link_line()]
                + lines.deep_view().skip(svg_link_position())
        } else {
            lines.deep_view()
        },
{
    let n = lines.len();
    let mut out: Vec<String> = Vec::new();
    let mut i: usize = 0;
    proof {
        assert(out.deep_view() =~= lines.deep_view().take(0));
    }
    while i < n
        invariant
            i <= n,
            n == lines@.len(),
            out.deep_view() =~= if i > 9 {
                lines.deep_view().take(9) + seq![svg_link_line()] + lines.deep_view().subrange(
                    9,
                    i as int,
                )
            } else {
                lines.deep_view().take(i as int)
            },
        decreases n - i,
    {
        if i == 9 {
            let mut link = String::new();
            link.append(
                "<link xmlns=\"http://www.w3.org/1999/xhtml\" rel=\"stylesheet\" href=\"styles.css\" type=\"text/css\" />",
            );
            proof {
                assert(link@ =~= svg_link_line());
            }
            let ghost pre = out.deep_view();
            out.push(link);
            proof {
                assert(out.deep_view() =~= pre.push(svg_link_line()));
            }
        }
        let ghost pre2 = out.deep_view();
        out.push(lines[i].clone());
        proof {
            assert(out.deep_view() =~= pre2.push(lines.deep_view()[i as int]));
            if i + 1 > 9 {
                assert(out.deep_view() =~= lines.deep_view().take(9) + seq![svg_link_line()]
                    + lines.deep_view().subrange(9, i + 1));
            } else {
                assert(out.deep_view() =~= lines.deep_view().take(i + 1));
            }
        }
        i += 1;
    }
    proof {
        if n > 9 {
            assert(lines.deep_view().subrange(9, n as int) =~= lines.deep_view().skip(9));
            assert(out.deep_view() =~= lines.deep_view().take(9) + seq![svg_link_line()]
                + lines.deep_view().skip(9));
        } else {
            assert(out.deep_view() =~= lines.deep_view().take(n as int));
            assert(out.deep_view() =~= lines.deep_view());
        }
    }
    out
}

} // verus!
