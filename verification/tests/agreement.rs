use bstr::ByteSlice;
use tree_manipulation::hunk::{HunkHeader, HunkRange};
use tree_manipulation::object::ObjectId;
use tree_manipulation::patch::apply_hunks;
use tree_manipulation::path::path_components;
use tree_manipulation::subtract::{subtract_hunks, HunkSubtraction};

/// A small generator of numbers that gives the same numbers on every run.
struct Numbers(u64);

impl Numbers {
    fn next(&mut self, below: u32) -> u32 {
        self.0 = self.0.wrapping_mul(6364136223846793005).wrapping_add(1442695040888963407);
        ((self.0 >> 33) % below as u64) as u32
    }

    fn text(&mut self, lines: u32) -> Vec<u8> {
        let mut out = Vec::new();
        for n in 0..lines {
            for _ in 0..self.next(3) {
                out.push(b'a' + self.next(4) as u8);
            }
            if self.next(4) == 0 {
                out.push(b'\r');
            }
            if n + 1 < lines || self.next(3) != 0 {
                out.push(b'\n');
            }
        }
        out
    }
}

/// Applies hunks line by line, with the line iterator of `bstr`.
fn apply_by_lines(old_image: &[u8], new_image: &[u8], hunks: &[HunkHeader]) -> Option<Vec<u8>> {
    let mut old_cursor = 1usize;
    let mut old_lines = old_image.lines_with_terminator();
    let mut new_cursor = 1usize;
    let mut new_lines = new_image.lines_with_terminator();
    let mut out = Vec::new();
    for hunk in hunks {
        let old_skips = (hunk.old_start as usize).checked_sub(old_cursor)?;
        for line in old_lines.by_ref().take(old_skips) {
            out.extend_from_slice(line);
        }
        let _replaced = old_lines.by_ref().take(hunk.old_lines as usize).count();
        old_cursor += old_skips + hunk.old_lines as usize;

        let new_skips = (hunk.new_start as usize).checked_sub(new_cursor)?;
        let _passed = new_lines.by_ref().take(new_skips).count();
        for line in new_lines.by_ref().take(hunk.new_lines as usize) {
            out.extend_from_slice(line);
        }
        new_cursor += new_skips + hunk.new_lines as usize;
    }
    for line in old_lines {
        out.extend_from_slice(line);
    }
    Some(out)
}

#[test]
fn applying_hunks_agrees_with_applying_them_line_by_line() {
    let mut numbers = Numbers(7);
    let mut applied = 0;
    let mut refused = 0;
    for _ in 0..4000 {
        let old_count = numbers.next(7);
        let old_image = numbers.text(old_count);
        let new_count = numbers.next(7);
        let new_image = numbers.text(new_count);
        let mut hunks = Vec::new();
        let (mut old_at, mut new_at) = (1u32, 1u32);
        for _ in 0..numbers.next(4) {
            // mostly in order, sometimes not
            let old_start = if numbers.next(8) == 0 { numbers.next(8) } else { old_at + numbers.next(3) };
            let new_start = if numbers.next(8) == 0 { numbers.next(8) } else { new_at + numbers.next(3) };
            let hunk = HunkHeader {
                old_start,
                old_lines: numbers.next(3),
                new_start,
                new_lines: numbers.next(3),
            };
            old_at = hunk.old_start + hunk.old_lines;
            new_at = hunk.new_start + hunk.new_lines;
            hunks.push(hunk);
        }
        let expected = apply_by_lines(&old_image, &new_image, &hunks);
        let actual = apply_hunks(&old_image, &new_image, &hunks);
        assert_eq!(actual.ok(), expected, "{old_image:?} {new_image:?} {hunks:?}");
        if expected.is_some() {
            applied += 1;
        } else {
            refused += 1;
        }
    }
    assert!(applied > 1000);
    assert!(refused > 100);
}

#[test]
fn path_components_agree_with_splitting_at_slashes() {
    let mut numbers = Numbers(11);
    for _ in 0..2000 {
        let mut path = Vec::new();
        for _ in 0..numbers.next(9) {
            path.push(if numbers.next(3) == 0 { b'/' } else { b'a' + numbers.next(3) as u8 });
        }
        let expected: Vec<Vec<u8>> = path.split_str("/").map(|part| part.to_vec()).collect();
        assert_eq!(path_components(&path), expected, "{path:?}");
    }
}

#[test]
fn hex_agrees_with_how_object_ids_are_displayed() {
    let mut numbers = Numbers(13);
    for _ in 0..200 {
        let mut bytes = [0u8; 20];
        for byte in bytes.iter_mut() {
            *byte = numbers.next(256) as u8;
        }
        let id = ObjectId { bytes };
        let expected = gix::ObjectId::from_bytes_or_panic(&bytes).to_string();
        assert_eq!(String::from_utf8(id.to_hex()).unwrap(), expected);
    }
}

fn lines(text: &[u8], range: HunkRange) -> Vec<&[u8]> {
    text.lines_with_terminator()
        .skip(range.start as usize - 1)
        .take(range.lines as usize)
        .collect()
}

#[test]
fn cutting_old_lines_keeps_them_and_all_new_lines() {
    let mut numbers = Numbers(17);
    for _ in 0..3000 {
        let old_image: Vec<u8> = (0..12u8).flat_map(|n| [b'o', b'a' + n, b'\n']).collect();
        let new_image: Vec<u8> = (0..12u8).flat_map(|n| [b'n', b'a' + n, b'\n']).collect();
        let hunk = HunkHeader {
            old_start: 1 + numbers.next(5),
            old_lines: numbers.next(6),
            new_start: 1 + numbers.next(5),
            new_lines: numbers.next(6),
        };
        let cut_start = hunk.old_start + numbers.next(hunk.old_lines + 1);
        let cut = HunkRange {
            start: cut_start,
            lines: numbers.next(hunk.old_start + hunk.old_lines - cut_start + 1),
        };
        let pieces = subtract_hunks(hunk, vec![HunkSubtraction::Old(cut)]).unwrap();
        let patched = apply_hunks(&old_image, &new_image, &pieces).unwrap();

        // every old line that was cut out is there, and every new line of the hunk
        for line in lines(&old_image, cut) {
            assert!(patched.find(line).is_some(), "{hunk:?} {cut:?}");
        }
        for line in lines(&new_image, hunk.new_range()) {
            assert!(patched.find(line).is_some(), "{hunk:?} {cut:?}");
        }
        // without the lines that were cut out, the file is what the whole hunk builds
        let whole = apply_hunks(&old_image, &new_image, &[hunk]).unwrap();
        let mut rest = patched.clone();
        for line in lines(&old_image, cut) {
            let at = rest.find(line).unwrap();
            rest.drain(at..at + line.len());
        }
        assert_eq!(rest, whole, "{hunk:?} {cut:?}");
    }
}

#[test]
fn cutting_new_lines_drops_them_and_nothing_else() {
    let mut numbers = Numbers(19);
    for _ in 0..3000 {
        let old_image: Vec<u8> = (0..12u8).flat_map(|n| [b'o', b'a' + n, b'\n']).collect();
        let new_image: Vec<u8> = (0..12u8).flat_map(|n| [b'n', b'a' + n, b'\n']).collect();
        let hunk = HunkHeader {
            old_start: 1 + numbers.next(5),
            old_lines: numbers.next(6),
            new_start: 1 + numbers.next(5),
            new_lines: numbers.next(6),
        };
        let cut_start = hunk.new_start + numbers.next(hunk.new_lines + 1);
        let cut = HunkRange {
            start: cut_start,
            lines: numbers.next(hunk.new_start + hunk.new_lines - cut_start + 1),
        };
        let pieces = subtract_hunks(hunk, vec![HunkSubtraction::New(cut)]).unwrap();
        let patched = apply_hunks(&old_image, &new_image, &pieces).unwrap();

        let whole = apply_hunks(&old_image, &new_image, &[hunk]).unwrap();
        let mut expected = whole.clone();
        for line in lines(&new_image, cut) {
            let at = expected.find(line).unwrap();
            expected.drain(at..at + line.len());
        }
        assert_eq!(patched, expected, "{hunk:?} {cut:?}");
        assert_eq!(patched.len() + 3 * cut.lines as usize, whole.len());
    }
}
