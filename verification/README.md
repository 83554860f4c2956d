# edge-analytics

A privacy-respecting page view counter for static sites: no cookies, no addresses, nothing of a
view is kept but the path and the hour. The decisions are a library verified with Verus; around it
stands a small server (axum in front, DynamoDB behind).

## Layout

- `src/` is the library. What its functions return and change is stated in contracts that
  Verus proves; what the clocks show is the machine's to say.
  - `sitemap`: which paths a sitemap lists, and so may be counted.
  - `rate_limit`: token buckets, one per path.
  - `state`: what the server keeps, and what a request does to it.
  - `handlers`: what a view's request must look like, the write that counts it, early refreshes.
  - `stats`: sums over the stored counters.
  - `time`: the hour and the day as text.
  - `config`, `error`, `clock`, `text`: what the others stand on.
- `app/` is the server: the environment, HTTP, the database, timers.
- `tests/` runs the library.

## What is proved

- Only paths that the sitemap lists are ever written, and a write holds the path and the hour alone.
- A path is counted sixty times in the minute after its bucket was filled, and never more than
  twice that in any minute, whatever else happens in between; forgetting idle buckets changes no decision.
- Hours sort, as text, in the order of time.
- No hourly counter passes its cap.
- From a sitemap of at most 1 MiB the first five hundred distinct paths that its `loc` elements
  name are taken, each valid and normalized.
- Statistics do not depend on how a scan is cut into pages or in which order its rows come; what
  was stored is summed up under its path, and under today exactly if its hour lies in today.

## What is trusted

The wrappers marked `external_body`: the two clocks, the XML reader and the replacement of escapes
of quick-xml, the Unicode tables, the check for UTF-8, and the flag of who gathers the statistics.
Each says in its comment what is claimed of it.

## Client

A page reports its view with a beacon, or with `fetch` and the type `application/json`:

```html
<script>
  navigator.sendBeacon("https://analytics.yourdomain.com/views", JSON.stringify({ path: location.pathname }));
</script>
```

## Configuration

| Variable | Required | Meaning |
|----------|----------|---------|
| `TABLE_NAME` | yes | DynamoDB table, with `path` as partition key and `dateHour` as sort key |
| `SITE_ORIGIN` | yes | origin of the site, such as `https://example.com` |
| `SITEMAP_URL` | yes | URL of the sitemap |
| `PORT` | no | port to listen on, 3001 if not set |
| `ENABLE_STATUS` | no | `1` or `true` opens `/status` |
