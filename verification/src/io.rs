//! The byte I/O port: single-byte reads from standard input and
//! single-byte writes to standard output, shared by both execution
//! engines. Carriage returns on input are consumed silently, end of
//! file becomes the zero byte, and output bytes above 127 are
//! suppressed.

use vstd::prelude::*;

verus! {

/// Relies on std::io::Stdout::flush: pushes buffered output to the
/// stream; any failure is ignored.
#[verifier::external_body]
fn flush_stdout() {
    let _ = std::io::Write::flush(&mut std::io::stdout());
}

/// Relies on std::io::Read::read_exact on standard input: fills the
/// one-byte buffer from the stream. `Ok(Some)` carries the byte read,
/// `Ok(None)` is end of file, and `Err` carries the kind of any other
/// failure, formatted.
#[verifier::external_body]
fn read_byte_stdin() -> (r: Result<Option<u8>, String>) {
    let mut buf = [0u8; 1];
    match std::io::Read::read_exact(&mut std::io::stdin().lock(), &mut buf) {
        Ok(()) => Ok(Some(buf[0])),
        Err(e) => {
            if e.kind() == std::io::ErrorKind::UnexpectedEof {
                Ok(None)
            } else {
                Err(format!("{}", e.kind()))
            }
        },
    }
}

/// Relies on std::io::Write::write_all on standard error: writes the
/// whole message; any failure is ignored.
#[verifier::external_body]
fn write_stderr(msg: &str) {
    let _ = std::io::Write::write_all(&mut std::io::stderr(), msg.as_bytes());
}

/// Relies on std::io::Write::write_all on standard output: writes the
/// single byte; any failure is ignored.
#[verifier::external_body]
fn write_stdout_byte(byte: u8) {
    let _ = std::io::Write::write_all(&mut std::io::stdout(), &[byte]);
}

/// The port's decision on one read outcome: a carriage return is
/// discarded (read again), any other byte is the result, and both end
/// of file and a failed read degrade to the zero byte.
fn react(read: Result<Option<u8>, String>) -> (o: Option<u8>)
    ensures
        match read {
            Ok(Some(b)) => o == (if b != 13 {
                Some(b)
            } else {
                None::<u8>
            }),
            Ok(None) => o == Some(0u8),
            Err(_) => o == Some(0u8),
        },
{
    match read {
        Ok(Some(byte)) => {
            if byte != 13 {
                Some(byte)
            } else {
                None
            }
        },
        Ok(None) => Some(0),
        Err(_) => Some(0),
    }
}

/// Read a single byte from standard input. Output is flushed first;
/// carriage returns are discarded and the next byte is read instead;
/// end of file and read failures yield zero, a failure being reported
/// to standard error. The returned byte is never a carriage return.
///
/// The retry loop carries a bound of `u64::MAX` reads so that it
/// provably terminates; no realizable input reaches that bound.
pub fn getchar() -> (r: u8)
    ensures
        r != 13,
{
    flush_stdout();
    let mut tries: u64 = u64::MAX;
    while tries > 0
        decreases tries,
    {
        tries = tries - 1;
        let read = read_byte_stdin();
        if let Err(msg) = &read {
            let mut report = String::new();
            report.append("Error while reading input: ");
            report.append(msg.as_str());
            report.append("\n");
            write_stderr(report.as_str());
        }
        match react(read) {
            Some(byte) => {
                return byte;
            },
            None => {},
        }
    }
    0
}

/// Write a single byte to standard output, if it is at most 127; bytes
/// with the high bit set are dropped, reflecting the language's ASCII
/// contract.
pub fn putchar(byte: u8) {
    if byte < 128 {
        write_stdout_byte(byte);
    }
}

} // verus!
