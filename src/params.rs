use vstd::prelude::*;

verus! {

/// Narrows a dataset listing to the datasets read from one source.
pub struct DatasetFilter {
    /// Keep only datasets whose source is this one (e.g. `postgres:aidemo_messages`).
    pub source: Option<String>,
}

impl DatasetFilter {
    /// Whether a dataset read from `source` is listed: every dataset is
    /// without a filter, only those of the named source with one.
    pub fn matches(&self, source: &str) -> (r: bool)
        ensures
            r == match self.source {
                Some(wanted) => wanted@ == source@,
                None => true,
            },
    {
        match &self.source {
            Some(wanted) => *wanted == source.to_owned(),
            None => true,
        }
    }
}

/// The body format of a listing response.
#[derive(PartialEq, Eq, Structural, Clone, Copy, Debug)]
pub enum Format {
    Json,
    Csv,
}

/// Options of a dataset listing.
pub struct DatasetQueryParams {
    /// Whether each dataset's status is included.
    pub status: bool,
    /// The body format of the response.
    pub format: Format,
}

impl Default for DatasetQueryParams {
    /// No status, in JSON.
    fn default() -> (r: Self)
        ensures
            !r.status,
            r.format == Format::Json,
    {
        DatasetQueryParams { status: false, format: Format::Json }
    }
}

/// A request to change how an accelerated dataset is refreshed.
pub struct AccelerationRequest {
    /// The SQL used for the refresh; without it, the configured one stays.
    pub refresh_sql: Option<String>,
}

/// The ways a dataset can be sampled.
#[derive(PartialEq, Eq, Structural, Clone, Copy, Debug)]
pub enum SampleTableMethod {
    DistinctColumns,
    RandomSample,
    TopNSample,
}

/// Options of a sampling request.
pub struct SampleQueryParams {
    /// How to sample; without it, the method is read from the request body.
    pub sample_type: Option<SampleTableMethod>,
}

/// Options of the tool that publishes a Parquet file to an Arrow Flight
/// endpoint.
pub struct Args {
    /// The Parquet file to send.
    pub parquet_file: String,
    /// The Arrow Flight endpoint to send it to.
    pub flight_endpoint: String,
    /// The dataset path the data is published under.
    pub path: String,
    /// A root certificate that verifies the server's TLS certificate.
    pub tls_root_certificate_file: Option<String>,
}

impl Default for Args {
    /// `test.parquet` sent to `http://localhost:50051` under `test`, without TLS.
    fn default() -> (r: Self)
        ensures
            r.parquet_file@ == "test.parquet"@,
            r.flight_endpoint@ == "http://localhost:50051"@,
            r.path@ == "test"@,
            r.tls_root_certificate_file is None,
    {
        Args {
            parquet_file: "test.parquet".to_owned(),
            flight_endpoint: "http://localhost:50051".to_owned(),
            path: "test".to_owned(),
            tls_root_certificate_file: None,
        }
    }
}

impl Args {
    /// The endpoint to connect to: with a root certificate, the default
    /// local endpoint is reached over `https`; any other endpoint is used as
    /// given.
    pub fn connection_endpoint(&self) -> (r: String)
        ensures
            r@ == if self.tls_root_certificate_file is Some && self.flight_endpoint@
                == "http://localhost:50051"@ {
                "https://localhost:50051"@
            } else {
                self.flight_endpoint@
            },
    {
        if self.tls_root_certificate_file.is_some() {
            let local = "http://localhost:50051".to_owned();
            if self.flight_endpoint == local {
                return "https://localhost:50051".to_owned();
            }
        }
        self.flight_endpoint.clone()
    }
}

} // verus!
