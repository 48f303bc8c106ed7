use vstd::prelude::*;

use crate::error::PixelSnapperError;
use crate::text::{decimal, eq_ignore_ascii_case, eq_ignore_case, push_decimal};

verus! {

broadcast use vstd::string::group_string_axioms;

/// Whether a file extension names a supported image: `png`, `jpg` or `jpeg`
/// in any ASCII case.
pub fn is_supported_image_extension(extension: Option<&str>) -> (ok: bool)
    ensures
        ok == (extension matches Some(e) && (eq_ignore_ascii_case(e@, "png"@) || eq_ignore_ascii_case(
            e@,
            "jpg"@,
        ) || eq_ignore_ascii_case(e@, "jpeg"@))),
{
    match extension {
        Some(e) => eq_ignore_case(e, "png") || eq_ignore_case(e, "jpg") || eq_ignore_case(e, "jpeg"),
        None => false,
    }
}

/// The output file name for an input with file stem `stem`: the stem with a
/// `.png` extension. An input without a (non-empty, UTF-8) stem is rejected;
/// `input_display` is how its path is shown in the message.
pub fn output_file_name(stem: Option<&str>, input_display: &str) -> (res: Result<String, PixelSnapperError>)
    ensures
        match stem {
            Some(s) if s@.len() > 0 => res matches Ok(n) && n@ == s@ + ".png"@,
            _ => res matches Err(PixelSnapperError::InvalidInput(m)) && m@ == "Input path has no file stem: "@
                + input_display@,
        },
{
    match stem {
        Some(s) => {
            if s.is_empty() {
                let mut m = String::from_str("Input path has no file stem: ");
                m.append(input_display);
                return Err(PixelSnapperError::InvalidInput(m));
            }
            let mut n = String::from_str(s);
            n.append(".png");
            Ok(n)
        },
        None => {
            let mut m = String::from_str("Input path has no file stem: ");
            m.append(input_display);
            Err(PixelSnapperError::InvalidInput(m))
        },
    }
}

/// Checks the directories of a batch run: the output directory must differ
/// from the input directory and must not be an existing non-directory.
pub fn check_batch_dirs(same_dir: bool, output_is_non_dir: bool, output_display: &str) -> (res: Result<(), PixelSnapperError>)
    ensures
        same_dir ==> (res matches Err(PixelSnapperError::InvalidInput(m)) && m@
            == "Batch output directory must be different from the input directory"@),
        !same_dir && output_is_non_dir ==> (res matches Err(PixelSnapperError::InvalidInput(m)) && m@
            == "Batch output path must be a directory: "@ + output_display@),
        !same_dir && !output_is_non_dir ==> res is Ok,
{
    if same_dir {
        return Err(
            PixelSnapperError::InvalidInput(
                String::from_str("Batch output directory must be different from the input directory"),
            ),
        );
    }
    if output_is_non_dir {
        let mut m = String::from_str("Batch output path must be a directory: ");
        m.append(output_display);
        return Err(PixelSnapperError::InvalidInput(m));
    }
    Ok(())
}

/// Rejects a batch without supported images.
pub fn check_batch_inputs(count: usize, input_display: &str) -> (res: Result<(), PixelSnapperError>)
    ensures
        count > 0 ==> res is Ok,
        count == 0 ==> (res matches Err(PixelSnapperError::InvalidInput(m)) && m@
            == "No supported images found in '"@ + input_display@ + "'"@),
{
    if count == 0 {
        let mut m = String::from_str("No supported images found in '");
        m.append(input_display);
        m.append("'");
        return Err(PixelSnapperError::InvalidInput(m));
    }
    Ok(())
}

/// `input (error)` for one failed file.
pub open spec fn failure_entry(f: (Seq<char>, Seq<char>)) -> Seq<char> {
    f.0 + " ("@ + f.1 + ")"@
}

/// The failed files, joined with `; `.
pub open spec fn failure_list(fs: Seq<(Seq<char>, Seq<char>)>) -> Seq<char>
    decreases fs.len(),
{
    if fs.len() == 0 {
        Seq::empty()
    } else if fs.len() == 1 {
        failure_entry(fs[0])
    } else {
        failure_list(fs.drop_last()) + "; "@ + failure_entry(fs.last())
    }
}

/// The texts of a list of (input, error) pairs.
pub open spec fn failure_texts(fs: Seq<(String, String)>) -> Seq<(Seq<char>, Seq<char>)> {
    fs.map_values(|f: (String, String)| (f.0@, f.1@))
}

/// The error that ends a batch run in which some files failed; each failure
/// is the displayed input path and the error message.
pub fn batch_failure_error(failures: &[(String, String)]) -> (e: PixelSnapperError)
    requires
        failures@.len() > 0,
    ensures
        e matches PixelSnapperError::ProcessingError(m) && m@ == "Batch completed with "@ + decimal(
            failures@.len(),
        ) + (if failures@.len() == 1 {
            " failure: "@
        } else {
            " failures: "@
        }) + failure_list(failure_texts(failures@)),
{
    let ghost fs = failure_texts(failures@);
    let mut list = String::new();
    let mut i: usize = 0;
    while i < failures.len()
        invariant
            fs == failure_texts(failures@),
            i <= failures@.len(),
            list@ == failure_list(fs.take(i as int)),
        decreases failures@.len() - i,
    {
        assert(fs.take(i + 1).drop_last() == fs.take(i as int));
        assert(fs.take(i + 1).last() == fs[i as int]);
        if i > 0 {
            list.append("; ");
        } else {
            assert(fs.take(1).len() == 1);
        }
        list.append(failures[i].0.as_str());
        list.append(" (");
        list.append(failures[i].1.as_str());
        list.append(")");
        i = i + 1;
    }
    assert(fs.take(failures@.len() as int) == fs);
    let mut m = String::from_str("Batch completed with ");
    push_decimal(&mut m, failures.len());
    if failures.len() == 1 {
        m.append(" failure: ");
    } else {
        m.append(" failures: ");
    }
    m.append(list.as_str());
    PixelSnapperError::ProcessingError(m)
}

} // verus!
