//! What is said of what went wrong.
use crate::rebuild::RebuildError;
use crate::so_fix;
use crate::so_fix::FixError;
use crate::text;
use vstd::prelude::*;

verus! {

/// Every reason against a rebuild is told in these words, with the byte at fault where
/// there is one.
pub proof fn law_reasons_against_a_rebuild(b: u8)
    ensures
        RebuildError::ImageTooSmall.text() == "image too small"@,
        RebuildError::NotElf.text() == "not an ELF image"@,
        RebuildError::UnsupportedClass(b).text() == "unsupported EI_CLASS="@ + text::spelled(
            b as int,
            10,
        ),
        RebuildError::NotLittleEndian(b).text()
            == "only little-endian images supported (EI_DATA="@ + text::spelled(b as int, 10)
            + ")"@,
        RebuildError::SmallerThanHeader.text() == "image smaller than ELF header"@,
        RebuildError::NoProgramHeaders.text() == "no program headers"@,
        RebuildError::NoDynamicSegment.text() == "no PT_DYNAMIC segment; cannot rebuild sections"@,
        RebuildError::NoLoadSegments.text() == "no PT_LOAD segments"@,
{
}

/// So is every reason against a repair.
pub proof fn law_reasons_against_a_repair(b: u8)
    ensures
        FixError::NotElf.text() == "not a valid ELF file"@,
        FixError::UnsupportedClass(b).text() == "unsupported EI_CLASS="@ + text::spelled(
            b as int,
            10,
        ) + " (want ELF32 or ELF64)"@,
        FixError::TruncatedHeader.text() == "truncated ELF header"@,
        FixError::NoProgramHeaders.text() == "no program headers"@,
        FixError::NoLoadSegments.text() == "no PT_LOAD segments found"@,
{
}

/// A self-check passes on what the parse came to: the number of symbols, or what was
/// wrong.
pub proof fn law_self_check_passes_the_parse_on(parsed: Result<usize, goblin::error::Error>)
    ensures
        parsed matches Ok(n) ==> so_fix::checked(parsed) == Ok::<usize, so_fix::SelfCheckError>(n),
        parsed matches Err(e) ==> (so_fix::checked(parsed) matches Err(c) && c.cause == e),
{
}

/// A self-check is reported with the number of symbols, or as one that failed.
pub proof fn law_self_checks_are_reported(n: usize, e: so_fix::SelfCheckError)
    ensures
        so_fix::check_report(Ok(n)) == "rebuilt section headers, "@ + text::spelled(n as int, 10)
            + " dynamic symbols readable"@,
        so_fix::check_report(Err(e))
            == "rebuilt section headers, but self-check couldn't read symbols: "@
            + "parse rebuilt elf"@,
{
}

} // verus!
