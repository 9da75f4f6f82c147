//! Streaming residual CSV writer with the POD column layout
//! `epoch_jd_tt,obs_type,satellite,residual_m,sigma_m,rejected`.
//!
//! The writer accumulates the CSV bytes in a buffer that the caller hands
//! on to its sink; numeric columns arrive already rendered.

use vstd::prelude::*;
use vstd::string::StringSliceAdditionalSpecFns;

verus! {

/// Errors of the product writers.
#[derive(Debug, Clone, PartialEq, Eq)]
pub enum PodProductsError {
    /// The sink refused the bytes; the text says why.
    Io(String),
    /// The Parquet encoder failed; the text says why.
    Parquet(String),
}

/// The header row of the residual CSV.
pub open spec fn csv_header() -> Seq<u8> {
    "epoch_jd_tt,obs_type,satellite,residual_m,sigma_m,rejected\n".spec_bytes()
}

/// A data row: the six columns joined with commas, `true`/`false` for the
/// rejection flag, ended by a line feed.
pub open spec fn csv_row(
    epoch: Seq<u8>,
    obs_type: Seq<u8>,
    satellite: Seq<u8>,
    residual: Seq<u8>,
    sigma: Seq<u8>,
    rejected: bool,
) -> Seq<u8> {
    let comma = ",".spec_bytes();
    epoch + comma + obs_type + comma + satellite + comma + residual + comma + sigma + comma + (
    if rejected {
        "true".spec_bytes()
    } else {
        "false".spec_bytes()
    }) + "\n".spec_bytes()
}

/// Streaming writer of residual records.
pub struct ResidualCsvWriter {
    buffer: Vec<u8>,
}

impl View for ResidualCsvWriter {
    type V = Seq<u8>;

    closed spec fn view(&self) -> Seq<u8> {
        self.buffer@
    }
}

/// Append the bytes of `s`.
fn append_str(out: &mut Vec<u8>, s: &str)
    ensures
        final(out)@ == old(out)@ + s.spec_bytes(),
{
    let b = s.as_bytes();
    let ghost start = old(out)@;
    let mut i: usize = 0;
    while i < b.len()
        invariant
            i <= b@.len(),
            b@ == s.spec_bytes(),
            out@ == start + b@.subrange(0, i as int),
        decreases b@.len() - i,
    {
        out.push(b[i]);
        proof {
            assert(out@ =~= start + b@.subrange(0, i + 1));
        }
        i = i + 1;
    }
    proof {
        assert(b@.subrange(0, b@.len() as int) =~= b@);
    }
}

impl ResidualCsvWriter {
    /// Start a CSV on `buffer`: the header row is appended at once.
    pub fn new(buffer: Vec<u8>) -> (r: Result<ResidualCsvWriter, PodProductsError>)
        ensures
            r matches Ok(w) && w@ == buffer@ + csv_header(),
    {
        let mut buffer = buffer;
        append_str(&mut buffer, "epoch_jd_tt,obs_type,satellite,residual_m,sigma_m,rejected\n");
        Ok(ResidualCsvWriter { buffer })
    }

    /// Append one record: the rendered epoch, observable type, satellite,
    /// residual and sigma, and the rejection flag.
    pub fn write_row(
        &mut self,
        epoch: &str,
        obs_type: &str,
        satellite: &str,
        residual: &str,
        sigma: &str,
        rejected: bool,
    ) -> (r: Result<(), PodProductsError>)
        ensures
            r is Ok,
            final(self)@ == old(self)@ + csv_row(
                epoch.spec_bytes(),
                obs_type.spec_bytes(),
                satellite.spec_bytes(),
                residual.spec_bytes(),
                sigma.spec_bytes(),
                rejected,
            ),
    {
        let ghost start = self.buffer@;
        let ghost comma = ",".spec_bytes();
        let ghost flag = if rejected {
            "true".spec_bytes()
        } else {
            "false".spec_bytes()
        };
        append_str(&mut self.buffer, epoch);
        append_str(&mut self.buffer, ",");
        append_str(&mut self.buffer, obs_type);
        append_str(&mut self.buffer, ",");
        assert(self.buffer@ =~= start + (epoch.spec_bytes() + comma + obs_type.spec_bytes()
            + comma));
        append_str(&mut self.buffer, satellite);
        append_str(&mut self.buffer, ",");
        append_str(&mut self.buffer, residual);
        append_str(&mut self.buffer, ",");
        assert(self.buffer@ =~= start + (epoch.spec_bytes() + comma + obs_type.spec_bytes()
            + comma + satellite.spec_bytes() + comma + residual.spec_bytes() + comma));
        append_str(&mut self.buffer, sigma);
        append_str(&mut self.buffer, ",");
        if rejected {
            append_str(&mut self.buffer, "true");
        } else {
            append_str(&mut self.buffer, "false");
        }
        append_str(&mut self.buffer, "\n");
        assert(self.buffer@ =~= start + csv_row(
            epoch.spec_bytes(),
            obs_type.spec_bytes(),
            satellite.spec_bytes(),
            residual.spec_bytes(),
            sigma.spec_bytes(),
            rejected,
        ));
        Ok(())
    }

    /// Flush: the bytes written so far stay as they are.
    pub fn flush(&mut self) -> (r: Result<(), PodProductsError>)
        ensures
            r is Ok,
            final(self)@ == old(self)@,
    {
        Ok(())
    }

    /// Hand out the bytes written so far, leaving the buffer empty.
    pub fn take_bytes(&mut self) -> (b: Vec<u8>)
        ensures
            b@ == old(self)@,
            final(self)@ == Seq::<u8>::empty(),
    {
        let mut out: Vec<u8> = Vec::new();
        std::mem::swap(&mut out, &mut self.buffer);
        out
    }

    /// The bytes written so far.
    pub fn into_bytes(self) -> (b: Vec<u8>)
        ensures
            b@ == self@,
    {
        self.buffer
    }
}

} // verus!
