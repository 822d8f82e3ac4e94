//! The names the codec knows: literals, record names, field names and
//! option keys, each as a specification and as the bytes themselves.

use vstd::prelude::*;

verus! {

/// `null`: the JSON literal `null`.
pub open spec fn name_null() -> Seq<u8> {
    seq![0x6eu8, 0x75, 0x6c, 0x6c]
}

/// The bytes of `null`.
pub fn null_name() -> (r: [u8; 4])
    ensures
        r@ == name_null(),
{
    let r: [u8; 4] = [0x6e, 0x75, 0x6c, 0x6c];
    assert(r@ =~= name_null());
    r
}

/// `true`: the JSON literal and the atom `true`.
pub open spec fn name_true() -> Seq<u8> {
    seq![0x74u8, 0x72, 0x75, 0x65]
}

/// The bytes of `true`.
pub fn true_name() -> (r: [u8; 4])
    ensures
        r@ == name_true(),
{
    let r: [u8; 4] = [0x74, 0x72, 0x75, 0x65];
    assert(r@ =~= name_true());
    r
}

/// `false`: the JSON literal and the atom `false`.
pub open spec fn name_false() -> Seq<u8> {
    seq![0x66u8, 0x61, 0x6c, 0x73, 0x65]
}

/// The bytes of `false`.
pub fn false_name() -> (r: [u8; 5])
    ensures
        r@ == name_false(),
{
    let r: [u8; 5] = [0x66, 0x61, 0x6c, 0x73, 0x65];
    assert(r@ =~= name_false());
    r
}

/// `nil`: the atom `nil`, the host's name for JSON `null`.
pub open spec fn name_nil() -> Seq<u8> {
    seq![0x6eu8, 0x69, 0x6c]
}

/// The bytes of `nil`.
pub fn nil_name() -> (r: [u8; 3])
    ensures
        r@ == name_nil(),
{
    let r: [u8; 3] = [0x6e, 0x69, 0x6c];
    assert(r@ =~= name_nil());
    r
}

/// `__struct__`: the key under which a record carries its name.
pub open spec fn name_struct() -> Seq<u8> {
    seq![0x5fu8, 0x5f, 0x73, 0x74, 0x72, 0x75, 0x63, 0x74, 0x5f, 0x5f]
}

/// The bytes of `__struct__`.
pub fn struct_name() -> (r: [u8; 10])
    ensures
        r@ == name_struct(),
{
    let r: [u8; 10] = [0x5f, 0x5f, 0x73, 0x74, 0x72, 0x75, 0x63, 0x74, 0x5f, 0x5f];
    assert(r@ =~= name_struct());
    r
}

/// `Elixir.Decimal`: the record name of a decimal.
pub open spec fn name_decimal() -> Seq<u8> {
    seq![0x45u8, 0x6c, 0x69, 0x78, 0x69, 0x72, 0x2e, 0x44, 0x65, 0x63, 0x69, 0x6d, 0x61, 0x6c]
}

/// The bytes of `Elixir.Decimal`.
pub fn decimal_name() -> (r: [u8; 14])
    ensures
        r@ == name_decimal(),
{
    let r: [u8; 14] = [0x45, 0x6c, 0x69, 0x78, 0x69, 0x72, 0x2e, 0x44, 0x65, 0x63, 0x69, 0x6d, 0x61, 0x6c];
    assert(r@ =~= name_decimal());
    r
}

/// `Elixir.RustyJson.OrderedObject`: the record name of an ordered object.
pub open spec fn name_ordered_object() -> Seq<u8> {
    seq![0x45u8, 0x6c, 0x69, 0x78, 0x69, 0x72, 0x2e, 0x52, 0x75, 0x73, 0x74, 0x79, 0x4a, 0x73, 0x6f, 0x6e, 0x2e, 0x4f, 0x72, 0x64, 0x65, 0x72, 0x65, 0x64, 0x4f, 0x62, 0x6a, 0x65, 0x63, 0x74]
}

/// The bytes of `Elixir.RustyJson.OrderedObject`.
pub fn ordered_object_name() -> (r: [u8; 30])
    ensures
        r@ == name_ordered_object(),
{
    let r: [u8; 30] = [0x45, 0x6c, 0x69, 0x78, 0x69, 0x72, 0x2e, 0x52, 0x75, 0x73, 0x74, 0x79, 0x4a, 0x73, 0x6f, 0x6e, 0x2e, 0x4f, 0x72, 0x64, 0x65, 0x72, 0x65, 0x64, 0x4f, 0x62, 0x6a, 0x65, 0x63, 0x74];
    assert(r@ =~= name_ordered_object());
    r
}

/// `Elixir.Date`: the record name of a date.
pub open spec fn name_date() -> Seq<u8> {
    seq![0x45u8, 0x6c, 0x69, 0x78, 0x69, 0x72, 0x2e, 0x44, 0x61, 0x74, 0x65]
}

/// The bytes of `Elixir.Date`.
pub fn date_name() -> (r: [u8; 11])
    ensures
        r@ == name_date(),
{
    let r: [u8; 11] = [0x45, 0x6c, 0x69, 0x78, 0x69, 0x72, 0x2e, 0x44, 0x61, 0x74, 0x65];
    assert(r@ =~= name_date());
    r
}

/// `Elixir.Time`: the record name of a time.
pub open spec fn name_time() -> Seq<u8> {
    seq![0x45u8, 0x6c, 0x69, 0x78, 0x69, 0x72, 0x2e, 0x54, 0x69, 0x6d, 0x65]
}

/// The bytes of `Elixir.Time`.
pub fn time_name() -> (r: [u8; 11])
    ensures
        r@ == name_time(),
{
    let r: [u8; 11] = [0x45, 0x6c, 0x69, 0x78, 0x69, 0x72, 0x2e, 0x54, 0x69, 0x6d, 0x65];
    assert(r@ =~= name_time());
    r
}

/// `Elixir.NaiveDateTime`: the record name of a date-time without zone.
pub open spec fn name_naive_datetime() -> Seq<u8> {
    seq![0x45u8, 0x6c, 0x69, 0x78, 0x69, 0x72, 0x2e, 0x4e, 0x61, 0x69, 0x76, 0x65, 0x44, 0x61, 0x74, 0x65, 0x54, 0x69, 0x6d, 0x65]
}

/// The bytes of `Elixir.NaiveDateTime`.
pub fn naive_datetime_name() -> (r: [u8; 20])
    ensures
        r@ == name_naive_datetime(),
{
    let r: [u8; 20] = [0x45, 0x6c, 0x69, 0x78, 0x69, 0x72, 0x2e, 0x4e, 0x61, 0x69, 0x76, 0x65, 0x44, 0x61, 0x74, 0x65, 0x54, 0x69, 0x6d, 0x65];
    assert(r@ =~= name_naive_datetime());
    r
}

/// `Elixir.DateTime`: the record name of a date-time.
pub open spec fn name_datetime() -> Seq<u8> {
    seq![0x45u8, 0x6c, 0x69, 0x78, 0x69, 0x72, 0x2e, 0x44, 0x61, 0x74, 0x65, 0x54, 0x69, 0x6d, 0x65]
}

/// The bytes of `Elixir.DateTime`.
pub fn datetime_name() -> (r: [u8; 15])
    ensures
        r@ == name_datetime(),
{
    let r: [u8; 15] = [0x45, 0x6c, 0x69, 0x78, 0x69, 0x72, 0x2e, 0x44, 0x61, 0x74, 0x65, 0x54, 0x69, 0x6d, 0x65];
    assert(r@ =~= name_datetime());
    r
}

/// `Elixir.URI`: the record name of a URI.
pub open spec fn name_uri() -> Seq<u8> {
    seq![0x45u8, 0x6c, 0x69, 0x78, 0x69, 0x72, 0x2e, 0x55, 0x52, 0x49]
}

/// The bytes of `Elixir.URI`.
pub fn uri_name() -> (r: [u8; 10])
    ensures
        r@ == name_uri(),
{
    let r: [u8; 10] = [0x45, 0x6c, 0x69, 0x78, 0x69, 0x72, 0x2e, 0x55, 0x52, 0x49];
    assert(r@ =~= name_uri());
    r
}

/// `Elixir.MapSet`: the record name of an ordered set.
pub open spec fn name_mapset() -> Seq<u8> {
    seq![0x45u8, 0x6c, 0x69, 0x78, 0x69, 0x72, 0x2e, 0x4d, 0x61, 0x70, 0x53, 0x65, 0x74]
}

/// The bytes of `Elixir.MapSet`.
pub fn mapset_name() -> (r: [u8; 13])
    ensures
        r@ == name_mapset(),
{
    let r: [u8; 13] = [0x45, 0x6c, 0x69, 0x78, 0x69, 0x72, 0x2e, 0x4d, 0x61, 0x70, 0x53, 0x65, 0x74];
    assert(r@ =~= name_mapset());
    r
}

/// `Elixir.Range`: the record name of an integer range.
pub open spec fn name_range() -> Seq<u8> {
    seq![0x45u8, 0x6c, 0x69, 0x78, 0x69, 0x72, 0x2e, 0x52, 0x61, 0x6e, 0x67, 0x65]
}

/// The bytes of `Elixir.Range`.
pub fn range_name() -> (r: [u8; 12])
    ensures
        r@ == name_range(),
{
    let r: [u8; 12] = [0x45, 0x6c, 0x69, 0x78, 0x69, 0x72, 0x2e, 0x52, 0x61, 0x6e, 0x67, 0x65];
    assert(r@ =~= name_range());
    r
}

/// `Elixir.RustyJson.Fragment`: the record name of a pre-encoded fragment.
pub open spec fn name_fragment_record() -> Seq<u8> {
    seq![0x45u8, 0x6c, 0x69, 0x78, 0x69, 0x72, 0x2e, 0x52, 0x75, 0x73, 0x74, 0x79, 0x4a, 0x73, 0x6f, 0x6e, 0x2e, 0x46, 0x72, 0x61, 0x67, 0x6d, 0x65, 0x6e, 0x74]
}

/// The bytes of `Elixir.RustyJson.Fragment`.
pub fn fragment_record_name() -> (r: [u8; 25])
    ensures
        r@ == name_fragment_record(),
{
    let r: [u8; 25] = [0x45, 0x6c, 0x69, 0x78, 0x69, 0x72, 0x2e, 0x52, 0x75, 0x73, 0x74, 0x79, 0x4a, 0x73, 0x6f, 0x6e, 0x2e, 0x46, 0x72, 0x61, 0x67, 0x6d, 0x65, 0x6e, 0x74];
    assert(r@ =~= name_fragment_record());
    r
}

/// `Elixir.Jason.Fragment`: the other record name of a pre-encoded fragment.
pub open spec fn name_jason_fragment() -> Seq<u8> {
    seq![0x45u8, 0x6c, 0x69, 0x78, 0x69, 0x72, 0x2e, 0x4a, 0x61, 0x73, 0x6f, 0x6e, 0x2e, 0x46, 0x72, 0x61, 0x67, 0x6d, 0x65, 0x6e, 0x74]
}

/// The bytes of `Elixir.Jason.Fragment`.
pub fn jason_fragment_name() -> (r: [u8; 21])
    ensures
        r@ == name_jason_fragment(),
{
    let r: [u8; 21] = [0x45, 0x6c, 0x69, 0x78, 0x69, 0x72, 0x2e, 0x4a, 0x61, 0x73, 0x6f, 0x6e, 0x2e, 0x46, 0x72, 0x61, 0x67, 0x6d, 0x65, 0x6e, 0x74];
    assert(r@ =~= name_jason_fragment());
    r
}

/// `coef`: a field of a decimal.
pub open spec fn name_coef() -> Seq<u8> {
    seq![0x63u8, 0x6f, 0x65, 0x66]
}

/// The bytes of `coef`.
pub fn coef_name() -> (r: [u8; 4])
    ensures
        r@ == name_coef(),
{
    let r: [u8; 4] = [0x63, 0x6f, 0x65, 0x66];
    assert(r@ =~= name_coef());
    r
}

/// `exp`: a field of a decimal.
pub open spec fn name_exp() -> Seq<u8> {
    seq![0x65u8, 0x78, 0x70]
}

/// The bytes of `exp`.
pub fn exp_name() -> (r: [u8; 3])
    ensures
        r@ == name_exp(),
{
    let r: [u8; 3] = [0x65, 0x78, 0x70];
    assert(r@ =~= name_exp());
    r
}

/// `sign`: a field of a decimal.
pub open spec fn name_sign() -> Seq<u8> {
    seq![0x73u8, 0x69, 0x67, 0x6e]
}

/// The bytes of `sign`.
pub fn sign_name() -> (r: [u8; 4])
    ensures
        r@ == name_sign(),
{
    let r: [u8; 4] = [0x73, 0x69, 0x67, 0x6e];
    assert(r@ =~= name_sign());
    r
}

/// `values`: the field of an ordered object.
pub open spec fn name_values() -> Seq<u8> {
    seq![0x76u8, 0x61, 0x6c, 0x75, 0x65, 0x73]
}

/// The bytes of `values`.
pub fn values_name() -> (r: [u8; 6])
    ensures
        r@ == name_values(),
{
    let r: [u8; 6] = [0x76, 0x61, 0x6c, 0x75, 0x65, 0x73];
    assert(r@ =~= name_values());
    r
}

/// `encode`: the field of a fragment.
pub open spec fn name_encode() -> Seq<u8> {
    seq![0x65u8, 0x6e, 0x63, 0x6f, 0x64, 0x65]
}

/// The bytes of `encode`.
pub fn encode_name() -> (r: [u8; 6])
    ensures
        r@ == name_encode(),
{
    let r: [u8; 6] = [0x65, 0x6e, 0x63, 0x6f, 0x64, 0x65];
    assert(r@ =~= name_encode());
    r
}

/// `year`: a field of a date.
pub open spec fn name_year() -> Seq<u8> {
    seq![0x79u8, 0x65, 0x61, 0x72]
}

/// The bytes of `year`.
pub fn year_name() -> (r: [u8; 4])
    ensures
        r@ == name_year(),
{
    let r: [u8; 4] = [0x79, 0x65, 0x61, 0x72];
    assert(r@ =~= name_year());
    r
}

/// `month`: a field of a date.
pub open spec fn name_month() -> Seq<u8> {
    seq![0x6du8, 0x6f, 0x6e, 0x74, 0x68]
}

/// The bytes of `month`.
pub fn month_name() -> (r: [u8; 5])
    ensures
        r@ == name_month(),
{
    let r: [u8; 5] = [0x6d, 0x6f, 0x6e, 0x74, 0x68];
    assert(r@ =~= name_month());
    r
}

/// `day`: a field of a date.
pub open spec fn name_day() -> Seq<u8> {
    seq![0x64u8, 0x61, 0x79]
}

/// The bytes of `day`.
pub fn day_name() -> (r: [u8; 3])
    ensures
        r@ == name_day(),
{
    let r: [u8; 3] = [0x64, 0x61, 0x79];
    assert(r@ =~= name_day());
    r
}

/// `hour`: a field of a time.
pub open spec fn name_hour() -> Seq<u8> {
    seq![0x68u8, 0x6f, 0x75, 0x72]
}

/// The bytes of `hour`.
pub fn hour_name() -> (r: [u8; 4])
    ensures
        r@ == name_hour(),
{
    let r: [u8; 4] = [0x68, 0x6f, 0x75, 0x72];
    assert(r@ =~= name_hour());
    r
}

/// `minute`: a field of a time.
pub open spec fn name_minute() -> Seq<u8> {
    seq![0x6du8, 0x69, 0x6e, 0x75, 0x74, 0x65]
}

/// The bytes of `minute`.
pub fn minute_name() -> (r: [u8; 6])
    ensures
        r@ == name_minute(),
{
    let r: [u8; 6] = [0x6d, 0x69, 0x6e, 0x75, 0x74, 0x65];
    assert(r@ =~= name_minute());
    r
}

/// `second`: a field of a time.
pub open spec fn name_second() -> Seq<u8> {
    seq![0x73u8, 0x65, 0x63, 0x6f, 0x6e, 0x64]
}

/// The bytes of `second`.
pub fn second_name() -> (r: [u8; 6])
    ensures
        r@ == name_second(),
{
    let r: [u8; 6] = [0x73, 0x65, 0x63, 0x6f, 0x6e, 0x64];
    assert(r@ =~= name_second());
    r
}

/// `microsecond`: a field of a time.
pub open spec fn name_microsecond() -> Seq<u8> {
    seq![0x6du8, 0x69, 0x63, 0x72, 0x6f, 0x73, 0x65, 0x63, 0x6f, 0x6e, 0x64]
}

/// The bytes of `microsecond`.
pub fn microsecond_name() -> (r: [u8; 11])
    ensures
        r@ == name_microsecond(),
{
    let r: [u8; 11] = [0x6d, 0x69, 0x63, 0x72, 0x6f, 0x73, 0x65, 0x63, 0x6f, 0x6e, 0x64];
    assert(r@ =~= name_microsecond());
    r
}

/// `std_offset`: a field of a date-time.
pub open spec fn name_std_offset() -> Seq<u8> {
    seq![0x73u8, 0x74, 0x64, 0x5f, 0x6f, 0x66, 0x66, 0x73, 0x65, 0x74]
}

/// The bytes of `std_offset`.
pub fn std_offset_name() -> (r: [u8; 10])
    ensures
        r@ == name_std_offset(),
{
    let r: [u8; 10] = [0x73, 0x74, 0x64, 0x5f, 0x6f, 0x66, 0x66, 0x73, 0x65, 0x74];
    assert(r@ =~= name_std_offset());
    r
}

/// `utc_offset`: a field of a date-time.
pub open spec fn name_utc_offset() -> Seq<u8> {
    seq![0x75u8, 0x74, 0x63, 0x5f, 0x6f, 0x66, 0x66, 0x73, 0x65, 0x74]
}

/// The bytes of `utc_offset`.
pub fn utc_offset_name() -> (r: [u8; 10])
    ensures
        r@ == name_utc_offset(),
{
    let r: [u8; 10] = [0x75, 0x74, 0x63, 0x5f, 0x6f, 0x66, 0x66, 0x73, 0x65, 0x74];
    assert(r@ =~= name_utc_offset());
    r
}

/// `scheme`: a field of a URI.
pub open spec fn name_scheme() -> Seq<u8> {
    seq![0x73u8, 0x63, 0x68, 0x65, 0x6d, 0x65]
}

/// The bytes of `scheme`.
pub fn scheme_name() -> (r: [u8; 6])
    ensures
        r@ == name_scheme(),
{
    let r: [u8; 6] = [0x73, 0x63, 0x68, 0x65, 0x6d, 0x65];
    assert(r@ =~= name_scheme());
    r
}

/// `userinfo`: a field of a URI.
pub open spec fn name_userinfo() -> Seq<u8> {
    seq![0x75u8, 0x73, 0x65, 0x72, 0x69, 0x6e, 0x66, 0x6f]
}

/// The bytes of `userinfo`.
pub fn userinfo_name() -> (r: [u8; 8])
    ensures
        r@ == name_userinfo(),
{
    let r: [u8; 8] = [0x75, 0x73, 0x65, 0x72, 0x69, 0x6e, 0x66, 0x6f];
    assert(r@ =~= name_userinfo());
    r
}

/// `host`: a field of a URI.
pub open spec fn name_host() -> Seq<u8> {
    seq![0x68u8, 0x6f, 0x73, 0x74]
}

/// The bytes of `host`.
pub fn host_name() -> (r: [u8; 4])
    ensures
        r@ == name_host(),
{
    let r: [u8; 4] = [0x68, 0x6f, 0x73, 0x74];
    assert(r@ =~= name_host());
    r
}

/// `port`: a field of a URI.
pub open spec fn name_port() -> Seq<u8> {
    seq![0x70u8, 0x6f, 0x72, 0x74]
}

/// The bytes of `port`.
pub fn port_name() -> (r: [u8; 4])
    ensures
        r@ == name_port(),
{
    let r: [u8; 4] = [0x70, 0x6f, 0x72, 0x74];
    assert(r@ =~= name_port());
    r
}

/// `path`: a field of a URI.
pub open spec fn name_path() -> Seq<u8> {
    seq![0x70u8, 0x61, 0x74, 0x68]
}

/// The bytes of `path`.
pub fn path_name() -> (r: [u8; 4])
    ensures
        r@ == name_path(),
{
    let r: [u8; 4] = [0x70, 0x61, 0x74, 0x68];
    assert(r@ =~= name_path());
    r
}

/// `query`: a field of a URI.
pub open spec fn name_query() -> Seq<u8> {
    seq![0x71u8, 0x75, 0x65, 0x72, 0x79]
}

/// The bytes of `query`.
pub fn query_name() -> (r: [u8; 5])
    ensures
        r@ == name_query(),
{
    let r: [u8; 5] = [0x71, 0x75, 0x65, 0x72, 0x79];
    assert(r@ =~= name_query());
    r
}

/// `fragment`: a field of a URI.
pub open spec fn name_fragment() -> Seq<u8> {
    seq![0x66u8, 0x72, 0x61, 0x67, 0x6d, 0x65, 0x6e, 0x74]
}

/// The bytes of `fragment`.
pub fn fragment_name() -> (r: [u8; 8])
    ensures
        r@ == name_fragment(),
{
    let r: [u8; 8] = [0x66, 0x72, 0x61, 0x67, 0x6d, 0x65, 0x6e, 0x74];
    assert(r@ =~= name_fragment());
    r
}

/// `map`: the field of an ordered set.
pub open spec fn name_map() -> Seq<u8> {
    seq![0x6du8, 0x61, 0x70]
}

/// The bytes of `map`.
pub fn map_name() -> (r: [u8; 3])
    ensures
        r@ == name_map(),
{
    let r: [u8; 3] = [0x6d, 0x61, 0x70];
    assert(r@ =~= name_map());
    r
}

/// `first`: a field of an integer range.
pub open spec fn name_first() -> Seq<u8> {
    seq![0x66u8, 0x69, 0x72, 0x73, 0x74]
}

/// The bytes of `first`.
pub fn first_name() -> (r: [u8; 5])
    ensures
        r@ == name_first(),
{
    let r: [u8; 5] = [0x66, 0x69, 0x72, 0x73, 0x74];
    assert(r@ =~= name_first());
    r
}

/// `last`: a field of an integer range.
pub open spec fn name_last() -> Seq<u8> {
    seq![0x6cu8, 0x61, 0x73, 0x74]
}

/// The bytes of `last`.
pub fn last_name() -> (r: [u8; 4])
    ensures
        r@ == name_last(),
{
    let r: [u8; 4] = [0x6c, 0x61, 0x73, 0x74];
    assert(r@ =~= name_last());
    r
}

/// `step`: a field of an integer range.
pub open spec fn name_step() -> Seq<u8> {
    seq![0x73u8, 0x74, 0x65, 0x70]
}

/// The bytes of `step`.
pub fn step_name() -> (r: [u8; 4])
    ensures
        r@ == name_step(),
{
    let r: [u8; 4] = [0x73, 0x74, 0x65, 0x70];
    assert(r@ =~= name_step());
    r
}

/// `http`: a URI scheme.
pub open spec fn name_http() -> Seq<u8> {
    seq![0x68u8, 0x74, 0x74, 0x70]
}

/// The bytes of `http`.
pub fn http_name() -> (r: [u8; 4])
    ensures
        r@ == name_http(),
{
    let r: [u8; 4] = [0x68, 0x74, 0x74, 0x70];
    assert(r@ =~= name_http());
    r
}

/// `https`: a URI scheme.
pub open spec fn name_https() -> Seq<u8> {
    seq![0x68u8, 0x74, 0x74, 0x70, 0x73]
}

/// The bytes of `https`.
pub fn https_name() -> (r: [u8; 5])
    ensures
        r@ == name_https(),
{
    let r: [u8; 5] = [0x68, 0x74, 0x74, 0x70, 0x73];
    assert(r@ =~= name_https());
    r
}

/// `__pre_encoded__`: the tag of a pre-encoded field value.
pub open spec fn name_pre_encoded() -> Seq<u8> {
    seq![0x5fu8, 0x5f, 0x70, 0x72, 0x65, 0x5f, 0x65, 0x6e, 0x63, 0x6f, 0x64, 0x65, 0x64, 0x5f, 0x5f]
}

/// The bytes of `__pre_encoded__`.
pub fn pre_encoded_name() -> (r: [u8; 15])
    ensures
        r@ == name_pre_encoded(),
{
    let r: [u8; 15] = [0x5f, 0x5f, 0x70, 0x72, 0x65, 0x5f, 0x65, 0x6e, 0x63, 0x6f, 0x64, 0x65, 0x64, 0x5f, 0x5f];
    assert(r@ =~= name_pre_encoded());
    r
}

/// `indent`: an encode option.
pub open spec fn name_indent() -> Seq<u8> {
    seq![0x69u8, 0x6e, 0x64, 0x65, 0x6e, 0x74]
}

/// The bytes of `indent`.
pub fn indent_name() -> (r: [u8; 6])
    ensures
        r@ == name_indent(),
{
    let r: [u8; 6] = [0x69, 0x6e, 0x64, 0x65, 0x6e, 0x74];
    assert(r@ =~= name_indent());
    r
}

/// `compression`: an encode option.
pub open spec fn name_compression() -> Seq<u8> {
    seq![0x63u8, 0x6f, 0x6d, 0x70, 0x72, 0x65, 0x73, 0x73, 0x69, 0x6f, 0x6e]
}

/// The bytes of `compression`.
pub fn compression_name() -> (r: [u8; 11])
    ensures
        r@ == name_compression(),
{
    let r: [u8; 11] = [0x63, 0x6f, 0x6d, 0x70, 0x72, 0x65, 0x73, 0x73, 0x69, 0x6f, 0x6e];
    assert(r@ =~= name_compression());
    r
}

/// `lean`: an encode option.
pub open spec fn name_lean() -> Seq<u8> {
    seq![0x6cu8, 0x65, 0x61, 0x6e]
}

/// The bytes of `lean`.
pub fn lean_name() -> (r: [u8; 4])
    ensures
        r@ == name_lean(),
{
    let r: [u8; 4] = [0x6c, 0x65, 0x61, 0x6e];
    assert(r@ =~= name_lean());
    r
}

/// `escape`: an encode option.
pub open spec fn name_escape() -> Seq<u8> {
    seq![0x65u8, 0x73, 0x63, 0x61, 0x70, 0x65]
}

/// The bytes of `escape`.
pub fn escape_name() -> (r: [u8; 6])
    ensures
        r@ == name_escape(),
{
    let r: [u8; 6] = [0x65, 0x73, 0x63, 0x61, 0x70, 0x65];
    assert(r@ =~= name_escape());
    r
}

/// `strict_keys`: an encode option.
pub open spec fn name_strict_keys() -> Seq<u8> {
    seq![0x73u8, 0x74, 0x72, 0x69, 0x63, 0x74, 0x5f, 0x6b, 0x65, 0x79, 0x73]
}

/// The bytes of `strict_keys`.
pub fn strict_keys_name() -> (r: [u8; 11])
    ensures
        r@ == name_strict_keys(),
{
    let r: [u8; 11] = [0x73, 0x74, 0x72, 0x69, 0x63, 0x74, 0x5f, 0x6b, 0x65, 0x79, 0x73];
    assert(r@ =~= name_strict_keys());
    r
}

/// `sort_keys`: an encode option.
pub open spec fn name_sort_keys() -> Seq<u8> {
    seq![0x73u8, 0x6f, 0x72, 0x74, 0x5f, 0x6b, 0x65, 0x79, 0x73]
}

/// The bytes of `sort_keys`.
pub fn sort_keys_name() -> (r: [u8; 9])
    ensures
        r@ == name_sort_keys(),
{
    let r: [u8; 9] = [0x73, 0x6f, 0x72, 0x74, 0x5f, 0x6b, 0x65, 0x79, 0x73];
    assert(r@ =~= name_sort_keys());
    r
}

/// `pretty_opts`: an encode option.
pub open spec fn name_pretty_opts() -> Seq<u8> {
    seq![0x70u8, 0x72, 0x65, 0x74, 0x74, 0x79, 0x5f, 0x6f, 0x70, 0x74, 0x73]
}

/// The bytes of `pretty_opts`.
pub fn pretty_opts_name() -> (r: [u8; 11])
    ensures
        r@ == name_pretty_opts(),
{
    let r: [u8; 11] = [0x70, 0x72, 0x65, 0x74, 0x74, 0x79, 0x5f, 0x6f, 0x70, 0x74, 0x73];
    assert(r@ =~= name_pretty_opts());
    r
}

/// `line_separator`: a pretty-print option.
pub open spec fn name_line_separator() -> Seq<u8> {
    seq![0x6cu8, 0x69, 0x6e, 0x65, 0x5f, 0x73, 0x65, 0x70, 0x61, 0x72, 0x61, 0x74, 0x6f, 0x72]
}

/// The bytes of `line_separator`.
pub fn line_separator_name() -> (r: [u8; 14])
    ensures
        r@ == name_line_separator(),
{
    let r: [u8; 14] = [0x6c, 0x69, 0x6e, 0x65, 0x5f, 0x73, 0x65, 0x70, 0x61, 0x72, 0x61, 0x74, 0x6f, 0x72];
    assert(r@ =~= name_line_separator());
    r
}

/// `after_colon`: a pretty-print option.
pub open spec fn name_after_colon() -> Seq<u8> {
    seq![0x61u8, 0x66, 0x74, 0x65, 0x72, 0x5f, 0x63, 0x6f, 0x6c, 0x6f, 0x6e]
}

/// The bytes of `after_colon`.
pub fn after_colon_name() -> (r: [u8; 11])
    ensures
        r@ == name_after_colon(),
{
    let r: [u8; 11] = [0x61, 0x66, 0x74, 0x65, 0x72, 0x5f, 0x63, 0x6f, 0x6c, 0x6f, 0x6e];
    assert(r@ =~= name_after_colon());
    r
}

/// `html_safe`: an escape mode.
pub open spec fn name_html_safe() -> Seq<u8> {
    seq![0x68u8, 0x74, 0x6d, 0x6c, 0x5f, 0x73, 0x61, 0x66, 0x65]
}

/// The bytes of `html_safe`.
pub fn html_safe_name() -> (r: [u8; 9])
    ensures
        r@ == name_html_safe(),
{
    let r: [u8; 9] = [0x68, 0x74, 0x6d, 0x6c, 0x5f, 0x73, 0x61, 0x66, 0x65];
    assert(r@ =~= name_html_safe());
    r
}

/// `unicode_safe`: an escape mode.
pub open spec fn name_unicode_safe() -> Seq<u8> {
    seq![0x75u8, 0x6e, 0x69, 0x63, 0x6f, 0x64, 0x65, 0x5f, 0x73, 0x61, 0x66, 0x65]
}

/// The bytes of `unicode_safe`.
pub fn unicode_safe_name() -> (r: [u8; 12])
    ensures
        r@ == name_unicode_safe(),
{
    let r: [u8; 12] = [0x75, 0x6e, 0x69, 0x63, 0x6f, 0x64, 0x65, 0x5f, 0x73, 0x61, 0x66, 0x65];
    assert(r@ =~= name_unicode_safe());
    r
}

/// `javascript_safe`: an escape mode.
pub open spec fn name_javascript_safe() -> Seq<u8> {
    seq![0x6au8, 0x61, 0x76, 0x61, 0x73, 0x63, 0x72, 0x69, 0x70, 0x74, 0x5f, 0x73, 0x61, 0x66, 0x65]
}

/// The bytes of `javascript_safe`.
pub fn javascript_safe_name() -> (r: [u8; 15])
    ensures
        r@ == name_javascript_safe(),
{
    let r: [u8; 15] = [0x6a, 0x61, 0x76, 0x61, 0x73, 0x63, 0x72, 0x69, 0x70, 0x74, 0x5f, 0x73, 0x61, 0x66, 0x65];
    assert(r@ =~= name_javascript_safe());
    r
}

/// `gzip`: a compression algorithm.
pub open spec fn name_gzip() -> Seq<u8> {
    seq![0x67u8, 0x7a, 0x69, 0x70]
}

/// The bytes of `gzip`.
pub fn gzip_name() -> (r: [u8; 4])
    ensures
        r@ == name_gzip(),
{
    let r: [u8; 4] = [0x67, 0x7a, 0x69, 0x70];
    assert(r@ =~= name_gzip());
    r
}

/// `intern_keys`: a decode option.
pub open spec fn name_intern_keys() -> Seq<u8> {
    seq![0x69u8, 0x6e, 0x74, 0x65, 0x72, 0x6e, 0x5f, 0x6b, 0x65, 0x79, 0x73]
}

/// The bytes of `intern_keys`.
pub fn intern_keys_name() -> (r: [u8; 11])
    ensures
        r@ == name_intern_keys(),
{
    let r: [u8; 11] = [0x69, 0x6e, 0x74, 0x65, 0x72, 0x6e, 0x5f, 0x6b, 0x65, 0x79, 0x73];
    assert(r@ =~= name_intern_keys());
    r
}

/// `floats_decimals`: a decode option.
pub open spec fn name_floats_decimals() -> Seq<u8> {
    seq![0x66u8, 0x6c, 0x6f, 0x61, 0x74, 0x73, 0x5f, 0x64, 0x65, 0x63, 0x69, 0x6d, 0x61, 0x6c, 0x73]
}

/// The bytes of `floats_decimals`.
pub fn floats_decimals_name() -> (r: [u8; 15])
    ensures
        r@ == name_floats_decimals(),
{
    let r: [u8; 15] = [0x66, 0x6c, 0x6f, 0x61, 0x74, 0x73, 0x5f, 0x64, 0x65, 0x63, 0x69, 0x6d, 0x61, 0x6c, 0x73];
    assert(r@ =~= name_floats_decimals());
    r
}

/// `ordered_objects`: a decode option.
pub open spec fn name_ordered_objects() -> Seq<u8> {
    seq![0x6fu8, 0x72, 0x64, 0x65, 0x72, 0x65, 0x64, 0x5f, 0x6f, 0x62, 0x6a, 0x65, 0x63, 0x74, 0x73]
}

/// The bytes of `ordered_objects`.
pub fn ordered_objects_name() -> (r: [u8; 15])
    ensures
        r@ == name_ordered_objects(),
{
    let r: [u8; 15] = [0x6f, 0x72, 0x64, 0x65, 0x72, 0x65, 0x64, 0x5f, 0x6f, 0x62, 0x6a, 0x65, 0x63, 0x74, 0x73];
    assert(r@ =~= name_ordered_objects());
    r
}

/// `integer_digit_limit`: a decode option.
pub open spec fn name_integer_digit_limit() -> Seq<u8> {
    seq![0x69u8, 0x6e, 0x74, 0x65, 0x67, 0x65, 0x72, 0x5f, 0x64, 0x69, 0x67, 0x69, 0x74, 0x5f, 0x6c, 0x69, 0x6d, 0x69, 0x74]
}

/// The bytes of `integer_digit_limit`.
pub fn integer_digit_limit_name() -> (r: [u8; 19])
    ensures
        r@ == name_integer_digit_limit(),
{
    let r: [u8; 19] = [0x69, 0x6e, 0x74, 0x65, 0x67, 0x65, 0x72, 0x5f, 0x64, 0x69, 0x67, 0x69, 0x74, 0x5f, 0x6c, 0x69, 0x6d, 0x69, 0x74];
    assert(r@ =~= name_integer_digit_limit());
    r
}

/// `max_bytes`: a decode option.
pub open spec fn name_max_bytes() -> Seq<u8> {
    seq![0x6du8, 0x61, 0x78, 0x5f, 0x62, 0x79, 0x74, 0x65, 0x73]
}

/// The bytes of `max_bytes`.
pub fn max_bytes_name() -> (r: [u8; 9])
    ensures
        r@ == name_max_bytes(),
{
    let r: [u8; 9] = [0x6d, 0x61, 0x78, 0x5f, 0x62, 0x79, 0x74, 0x65, 0x73];
    assert(r@ =~= name_max_bytes());
    r
}

/// `reject_duplicate_keys`: a decode option.
pub open spec fn name_reject_duplicate_keys() -> Seq<u8> {
    seq![0x72u8, 0x65, 0x6a, 0x65, 0x63, 0x74, 0x5f, 0x64, 0x75, 0x70, 0x6c, 0x69, 0x63, 0x61, 0x74, 0x65, 0x5f, 0x6b, 0x65, 0x79, 0x73]
}

/// The bytes of `reject_duplicate_keys`.
pub fn reject_duplicate_keys_name() -> (r: [u8; 21])
    ensures
        r@ == name_reject_duplicate_keys(),
{
    let r: [u8; 21] = [0x72, 0x65, 0x6a, 0x65, 0x63, 0x74, 0x5f, 0x64, 0x75, 0x70, 0x6c, 0x69, 0x63, 0x61, 0x74, 0x65, 0x5f, 0x6b, 0x65, 0x79, 0x73];
    assert(r@ =~= name_reject_duplicate_keys());
    r
}

/// `validate_strings`: a decode option.
pub open spec fn name_validate_strings() -> Seq<u8> {
    seq![0x76u8, 0x61, 0x6c, 0x69, 0x64, 0x61, 0x74, 0x65, 0x5f, 0x73, 0x74, 0x72, 0x69, 0x6e, 0x67, 0x73]
}

/// The bytes of `validate_strings`.
pub fn validate_strings_name() -> (r: [u8; 16])
    ensures
        r@ == name_validate_strings(),
{
    let r: [u8; 16] = [0x76, 0x61, 0x6c, 0x69, 0x64, 0x61, 0x74, 0x65, 0x5f, 0x73, 0x74, 0x72, 0x69, 0x6e, 0x67, 0x73];
    assert(r@ =~= name_validate_strings());
    r
}

} // verus!
