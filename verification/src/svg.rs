use vstd::prelude::*;

verus! {

/// The line that ends an SVG document.
pub fn svg_footer() -> (r: String)
    ensures
        r@ == "</svg>\n"@,
{
    String::from_str("</svg>\n")
}

} // verus!
