//! The QR code of a share URL, laid out as dark cells of a square grid with
//! a quiet border, ready to be painted.

use vstd::prelude::*;
use qrcode::types::QrError;
use qrcode::QrCode;

verus! {

#[verifier::external_type_specification]
#[verifier::external_body]
pub struct ExQrCode(QrCode);

#[verifier::external_type_specification]
#[verifier::external_body]
pub struct ExQrError(QrError);

/// The modules of a QR code, row by row, `true` for a dark one.
pub uninterp spec fn qr_modules(code: QrCode) -> Seq<bool>;

/// Modules per side of a QR code, without its quiet zone.
pub uninterp spec fn qr_side(code: QrCode) -> nat;

/// The symbol that `qrcode` encodes `data` into at its default settings
/// (medium error correction, smallest version that fits): modules per side
/// and the modules row by row; `None` when the data does not fit.
pub uninterp spec fn qr_symbol(data: Seq<u8>) -> Option<(nat, Seq<bool>)>;

/// `qrcode::QrCode::new`: the symbol of `data`, or the error when it cannot
/// be encoded. Claimed: the code returned has the side and modules that
/// [`qr_symbol`] names for `data`, and an error comes exactly when that name
/// is `None`. Which symbol that is (the encoding, masking and version choice)
/// is left unsaid.
#[verifier::external_body]
fn qr_new(data: &[u8]) -> (r: Result<QrCode, QrError>)
    ensures
        match r {
            Ok(c) => qr_symbol(data@) == Some((qr_side(c), qr_modules(c))),
            Err(_) => qr_symbol(data@) is None,
        },
{
    QrCode::new(data)
}

/// `qrcode::QrCode::width`: modules per side, without the quiet zone.
#[verifier::external_body]
fn qr_width(code: &QrCode) -> (w: usize)
    ensures
        w == qr_side(*code),
{
    code.width()
}

/// `qrcode::QrCode::to_colors`: the modules row by row, each mapped to `true`
/// for `Color::Dark`. Claimed as the source shows it: the modules come from a
/// square canvas of `width × width` modules.
#[verifier::external_body]
fn qr_colors(code: &QrCode) -> (v: Vec<bool>)
    ensures
        v@ == qr_modules(*code),
        v@.len() == qr_side(*code) * qr_side(*code),
{
    code.to_colors().into_iter().map(
        |c| match c {
            qrcode::Color::Dark => true,
            qrcode::Color::Light => false,
        },
    ).collect()
}

/// Width of the light border drawn around the code, in modules.
pub const QR_QUIET: usize = 3;

/// A QR code laid out for drawing.
pub struct QrGrid {
    /// Cells per side, the quiet border included.
    pub side: usize,
    /// The dark modules as `(column, row)` cells, row by row.
    pub dark: Vec<(usize, usize)>,
}

/// The cells of the dark modules among the first `k` modules of a code `w`
/// modules wide, shifted by the quiet border.
pub open spec fn dark_cells(m: Seq<bool>, w: int, k: int) -> Seq<(usize, usize)>
    decreases k,
{
    if k <= 0 {
        Seq::empty()
    } else {
        let prev = dark_cells(m, w, k - 1);
        if m[k - 1] {
            prev.push((((k - 1) % w + 3) as usize, ((k - 1) / w + 3) as usize))
        } else {
            prev
        }
    }
}

/// The QR code of `data` as a grid: `None` when the data does not fit in a
/// QR code, else the side with a border of [`QR_QUIET`] cells on each side
/// and the cells of the dark modules.
pub fn qr_grid(data: &[u8]) -> (r: Option<QrGrid>)
    ensures
        match r {
            None => qr_symbol(data@) is None,
            Some(g) => qr_symbol(data@) matches Some(s) && g.side == s.0 + 6 && g.dark@ == dark_cells(
                s.1,
                s.0 as int,
                (s.0 * s.0) as int,
            ),
        },
{
    let code = match qr_new(data) {
        Ok(c) => c,
        Err(_) => {
            return None;
        },
    };
    let w = qr_width(&code);
    let colors = qr_colors(&code);
    let n = colors.len();
    if w >= 8 {
        assert(w + 6 <= w * w) by (nonlinear_arith)
            requires w >= 8;
    }
    let side = w + QR_QUIET * 2;
    let mut dark: Vec<(usize, usize)> = Vec::new();
    let mut k: usize = 0;
    while k < n
        invariant
            n == colors@.len(),
            n == w * w,
            k <= n,
            dark@ == dark_cells(colors@, w as int, k as int),
        decreases n - k,
    {
        if colors[k] {
            assert(w > 0) by (nonlinear_arith)
                requires n == w * w, k < n;
            assert(k % w + 3 <= w + 2 && k / w + 3 <= w + 2) by (nonlinear_arith)
                requires n == w * w, k < n, w > 0;
            assert(w + 2 <= usize::MAX) by (nonlinear_arith)
                requires n == w * w, w > 0, n <= usize::MAX, usize::MAX >= 4;
            dark.push((k % w + QR_QUIET, k / w + QR_QUIET));
        }
        k = k + 1;
    }
    Some(QrGrid { side, dark })
}

} // verus!
